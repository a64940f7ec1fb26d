use pathtracer::config::{
    default_bounces, default_samples, parse_resolution, BrdfType, Config, ConvertConfig, Profile,
    RenderConfig, Resolution, TonemapType,
};
use pathtracer::pipeline::{run, run_convert, run_render, Step};

#[test]
fn defaults_of_a_profile() {
    assert_eq!(default_bounces(), 2);
    assert_eq!(default_samples(), 16);
    assert_eq!(Resolution::default(), Resolution { width: 800, height: 800 });
    assert_eq!(BrdfType::default(), BrdfType::CookTorrance);
    assert_eq!(TonemapType::default(), TonemapType::Filmic);
    let p = Profile::default();
    assert_eq!(p.resolution, Resolution { width: 800, height: 800 });
    assert_eq!(p.bounces, 2);
    assert_eq!(p.samples, 16);
    assert_eq!(p.brdf, BrdfType::CookTorrance);
    assert_eq!(p.tonemap, TonemapType::Filmic);
    assert_eq!(p.nb_threads, 0);
}

#[test]
fn a_partial_profile_takes_defaults_for_the_rest() {
    let p = Profile::complete(None, Some(4), None, None, Some(TonemapType::Aces), None);
    assert_eq!(p, Profile { bounces: 4, tonemap: TonemapType::Aces, ..Profile::default() });
    let r = Resolution { width: 800, height: 600 };
    let p = Profile::complete(Some(r), Some(0), Some(1), Some(BrdfType::CookTorrance), Some(TonemapType::Reinhard), Some(8));
    assert_eq!(
        p,
        Profile {
            resolution: r,
            bounces: 0,
            samples: 1,
            brdf: BrdfType::CookTorrance,
            tonemap: TonemapType::Reinhard,
            nb_threads: 8,
        }
    );
    assert_eq!(Profile::complete(None, None, None, None, None, None), Profile::default());
}

#[test]
fn defaults_of_the_commands() {
    let c = RenderConfig::default();
    assert_eq!(c.input, "");
    assert_eq!(c.output, "");
    assert!(c.quiet);
    assert!(!c.viewer);
    assert!(!c.debug_textures);
    assert!(c.profile.is_none());
    let c = ConvertConfig::default();
    assert_eq!(c.input, "");
    assert_eq!(c.output, "");
    match Config::default() {
        Config::Render(c) => {
            assert_eq!((c.input.as_str(), c.output.as_str()), ("", ""));
            assert_eq!((c.quiet, c.viewer, c.debug_textures, c.profile), (true, false, false, None));
        }
        Config::Convert(_) => panic!("the default command is a render"),
    }
}

#[test]
fn commands_can_be_copied() {
    let c = RenderConfig {
        input: "scene.isf".to_string(),
        output: "out.png".to_string(),
        quiet: false,
        viewer: true,
        debug_textures: true,
        profile: Some("profile.yml".to_string()),
    };
    let d = c.clone();
    assert_eq!((d.input, d.output, d.quiet, d.viewer, d.debug_textures), ("scene.isf".to_string(), "out.png".to_string(), false, true, true));
    assert_eq!(d.profile, Some("profile.yml".to_string()));
    let c = Config::Convert(ConvertConfig { input: "a.gltf".to_string(), output: "dir".to_string() });
    match c.clone() {
        Config::Convert(convert) => assert_eq!((convert.input, convert.output), ("a.gltf".to_string(), "dir".to_string())),
        _ => panic!("a copy is of the same kind"),
    }
    let c = Config::Render(RenderConfig { input: "s.isf".to_string(), viewer: true, ..RenderConfig::default() });
    match c.clone() {
        Config::Render(render) => {
            assert_eq!((render.input.as_str(), render.output.as_str()), ("s.isf", ""));
            assert_eq!((render.quiet, render.viewer, render.debug_textures, render.profile), (true, true, false, None));
        }
        _ => panic!("a copy is of the same kind"),
    }
}

#[test]
fn resolution_is_width_x_height() {
    assert_eq!(parse_resolution("1920x1080"), Some(Resolution { width: 1920, height: 1080 }));
    assert_eq!(parse_resolution("800x600"), Some(Resolution { width: 800, height: 600 }));
    assert_eq!(parse_resolution("0x0"), Some(Resolution { width: 0, height: 0 }));
    assert_eq!(parse_resolution("007x+5"), Some(Resolution { width: 7, height: 5 }));
    assert_eq!(parse_resolution("+1x1"), Some(Resolution { width: 1, height: 1 }));
}

#[test]
fn resolution_holds_32_bit_numbers() {
    assert_eq!(parse_resolution("4294967295x1"), Some(Resolution { width: u32::MAX, height: 1 }));
    assert_eq!(parse_resolution("4294967296x1"), None);
    assert_eq!(parse_resolution("1x99999999999999999999999999"), None);
    assert_eq!(parse_resolution("00000000000000000000000001x2"), Some(Resolution { width: 1, height: 2 }));
}

#[test]
fn malformed_resolutions_are_refused() {
    for text in ["", "x", "1920", "1920x", "x1080", "1920X1080", "19 20x1080", "1920x1080x3", "-1x5", "1x-5", "1.5x2", "+x1", "1x+", "axb", "1920 x 1080", "1920x1080 ", "１x1"] {
        assert_eq!(parse_resolution(text), None);
    }
}

fn render_config() -> RenderConfig {
    RenderConfig {
        input: "scene.isf".to_string(),
        output: "render.png".to_string(),
        quiet: true,
        viewer: false,
        debug_textures: false,
        profile: None,
    }
}

fn describe(plan: &Vec<Step>) -> Vec<String> {
    plan.iter().map(|s| format!("{:?}", s)).collect()
}

#[test]
fn a_render_loads_renders_and_saves() {
    let plan = run_render(render_config());
    assert_eq!(plan.len(), 4);
    assert!(matches!(&plan[0], Step::DefaultProfile));
    assert!(matches!(&plan[1], Step::LoadScene { path } if path == "scene.isf"));
    assert!(matches!(&plan[2], Step::Render { viewer: false, quiet: true }));
    assert!(matches!(&plan[3], Step::SaveImage { path } if path == "render.png"));
}

#[test]
fn a_named_profile_is_loaded_first() {
    let config = RenderConfig { profile: Some("fast.yml".to_string()), viewer: true, quiet: false, ..render_config() };
    let plan = run_render(config);
    assert_eq!(plan.len(), 4);
    assert!(matches!(&plan[0], Step::LoadProfile { path } if path == "fast.yml"));
    assert!(matches!(&plan[2], Step::Render { viewer: true, quiet: false }));
}

#[test]
fn debug_textures_replace_the_rendering() {
    let config = RenderConfig { debug_textures: true, viewer: true, ..render_config() };
    let plan = run_render(config);
    assert_eq!(plan.len(), 3);
    assert!(matches!(&plan[0], Step::DefaultProfile));
    assert!(matches!(&plan[1], Step::LoadScene { path } if path == "scene.isf"));
    assert!(matches!(&plan[2], Step::DebugTextures));
}

#[test]
fn a_conversion_is_one_step() {
    let plan = run_convert(ConvertConfig { input: "in.gltf".to_string(), output: "out".to_string() });
    assert_eq!(plan.len(), 1);
    assert!(matches!(&plan[0], Step::Convert { input, output } if input == "in.gltf" && output == "out"));
}

#[test]
fn run_plans_what_the_command_asks_for() {
    let render = run(Config::Render(render_config()));
    assert_eq!(describe(&render), describe(&run_render(render_config())));
    let config = ConvertConfig { input: "in.gltf".to_string(), output: "out".to_string() };
    let convert = run(Config::Convert(config.clone()));
    assert_eq!(describe(&convert), describe(&run_convert(config)));
    assert_eq!(convert.len(), 1);
}
