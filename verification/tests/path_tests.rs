use pathtracer::path::{Action, Answer, Path, ROULETTE_AFTER};

fn surface(found: bool) -> Answer {
    Answer::Surface { found }
}

fn shaded(faint: bool) -> Answer {
    Answer::Shaded { faint }
}

fn gambled(stopped: bool) -> Answer {
    Answer::Gambled { stopped }
}

/// Lets the path run with the most patient answers; returns the actions.
fn run_to_the_end(bounces: usize) -> Vec<Action> {
    let mut path = Path::start(bounces);
    let mut actions = vec![path.pending];
    while !path.is_over() {
        let answer = match path.pending {
            Action::Cast => surface(true),
            Action::Shade { .. } => shaded(false),
            Action::Gamble => gambled(false),
            _ => unreachable!(),
        };
        actions.push(path.advance(answer));
    }
    actions
}

#[test]
fn a_path_starts_by_casting() {
    let path = Path::start(4);
    assert_eq!(path, Path { bounces: 4, bounce: 0, pending: Action::Cast });
    assert!(!path.is_over());
}

#[test]
fn a_miss_shows_the_background() {
    let mut path = Path::start(2);
    assert_eq!(path.advance(surface(false)), Action::Background);
    assert!(path.is_over());
    assert_eq!(path.bounce, 0);
}

#[test]
fn direct_light_only_with_no_bounces() {
    let mut path = Path::start(0);
    assert_eq!(path.advance(surface(true)), Action::Shade { indirect: false });
    assert_eq!(path.advance(shaded(false)), Action::Return);
    assert!(path.is_over());
}

#[test]
fn the_last_surface_gets_no_indirect_light() {
    let mut path = Path::start(2);
    assert_eq!(path.advance(surface(true)), Action::Shade { indirect: true });
    assert_eq!(path.advance(shaded(false)), Action::Cast);
    assert_eq!(path.advance(surface(true)), Action::Shade { indirect: true });
    assert_eq!(path.advance(shaded(false)), Action::Cast);
    assert_eq!(path.bounce, 2);
    assert_eq!(path.advance(surface(true)), Action::Shade { indirect: false });
    assert_eq!(path.advance(shaded(false)), Action::Return);
}

#[test]
fn a_faint_path_returns_at_once() {
    let mut path = Path::start(8);
    assert_eq!(path.advance(surface(true)), Action::Shade { indirect: true });
    assert_eq!(path.advance(shaded(true)), Action::Return);
    assert!(path.is_over());
}

#[test]
fn roulette_starts_after_four_bounces() {
    assert_eq!(ROULETTE_AFTER, 3);
    let actions = run_to_the_end(5);
    let shade = Action::Shade { indirect: true };
    assert_eq!(
        actions,
        vec![
            Action::Cast,
            shade,
            Action::Cast,
            shade,
            Action::Cast,
            shade,
            Action::Cast,
            shade,
            Action::Cast,
            shade,
            Action::Gamble,
            Action::Cast,
            Action::Shade { indirect: false },
            Action::Gamble,
            Action::Return,
        ]
    );
}

#[test]
fn a_lost_gamble_ends_the_path() {
    let mut path = Path { bounces: 9, bounce: 4, pending: Action::Gamble };
    assert_eq!(path.advance(gambled(true)), Action::Return);
    let mut path = Path { bounces: 9, bounce: 4, pending: Action::Gamble };
    assert_eq!(path.advance(gambled(false)), Action::Cast);
    assert_eq!(path.bounce, 5);
}

#[test]
fn a_path_casts_at_most_one_ray_more_than_it_has_bounces() {
    for bounces in 0..12 {
        let casts = run_to_the_end(bounces).iter().filter(|a| **a == Action::Cast).count();
        assert_eq!(casts, bounces + 1);
    }
}

#[test]
fn an_answer_to_something_else_changes_nothing() {
    let mut path = Path::start(3);
    assert_eq!(path.advance(shaded(true)), Action::Cast);
    assert_eq!(path.advance(gambled(true)), Action::Cast);
    assert_eq!(path, Path::start(3));
    let mut over = Path { bounces: 3, bounce: 1, pending: Action::Return };
    assert_eq!(over.advance(surface(true)), Action::Return);
    assert_eq!(over.advance(shaded(false)), Action::Return);
    assert_eq!(over.bounce, 1);
}
