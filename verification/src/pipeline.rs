//! From a command to the steps that carry it out.
//!
//! The steps are carried out in order by whoever owns the files and the
//! screen; the first step that fails ends the run.

use vstd::prelude::*;
use crate::config::{Config, ConvertConfig, RenderConfig};

verus! {

/// One thing to do.
#[derive(Debug)]
pub enum Step {
    /// Read the rendering profile from a file.
    LoadProfile { path: String },
    /// Take the default rendering profile.
    DefaultProfile,
    /// Read the scene.
    LoadScene { path: String },
    /// Write one image per material channel.
    DebugTextures,
    /// Render the scene.
    Render { viewer: bool, quiet: bool },
    /// Write the rendered image.
    SaveImage { path: String },
    /// Convert a scene into the renderer's own format.
    Convert { input: String, output: String },
}

/// The profile step of a render.
pub open spec fn profile_step(profile: Option<String>) -> Step {
    match profile {
        Some(path) => Step::LoadProfile { path },
        None => Step::DefaultProfile,
    }
}

/// The steps of a render.
pub open spec fn render_steps(config: RenderConfig) -> Seq<Step> {
    if config.debug_textures {
        seq![
            profile_step(config.profile),
            Step::LoadScene { path: config.input },
            Step::DebugTextures,
        ]
    } else {
        seq![
            profile_step(config.profile),
            Step::LoadScene { path: config.input },
            Step::Render { viewer: config.viewer, quiet: config.quiet },
            Step::SaveImage { path: config.output },
        ]
    }
}

/// The steps of a conversion.
pub open spec fn convert_steps(config: ConvertConfig) -> Seq<Step> {
    seq![Step::Convert { input: config.input, output: config.output }]
}

/// The steps of a command.
pub open spec fn steps(config: Config) -> Seq<Step> {
    match config {
        Config::Render(render) => render_steps(render),
        Config::Convert(convert) => convert_steps(convert),
    }
}

/// Plans a render: the profile first, from its file if one is named, then the
/// scene, then either the channel images or the rendering and its image file.
pub fn run_render(config: RenderConfig) -> (plan: Vec<Step>)
    ensures
        plan@ == render_steps(config),
{
    let mut plan: Vec<Step> = Vec::new();
    match config.profile {
        Some(path) => plan.push(Step::LoadProfile { path }),
        None => plan.push(Step::DefaultProfile),
    }
    plan.push(Step::LoadScene { path: config.input });
    if config.debug_textures {
        plan.push(Step::DebugTextures);
    } else {
        plan.push(Step::Render { viewer: config.viewer, quiet: config.quiet });
        plan.push(Step::SaveImage { path: config.output });
    }
    proof {
        assert(plan@ =~= render_steps(config));
    }
    plan
}

/// Plans a conversion.
pub fn run_convert(config: ConvertConfig) -> (plan: Vec<Step>)
    ensures
        plan@ == convert_steps(config),
{
    let mut plan: Vec<Step> = Vec::new();
    plan.push(Step::Convert { input: config.input, output: config.output });
    proof {
        assert(plan@ =~= convert_steps(config));
    }
    plan
}

/// Plans what a command asks for.
pub fn run(config: Config) -> (plan: Vec<Step>)
    ensures
        plan@ == steps(config),
{
    match config {
        Config::Render(render) => run_render(render),
        Config::Convert(convert) => run_convert(convert),
    }
}

} // verus!
