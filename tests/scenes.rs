use odonata::config::{save_config, AspectRatio, ConfigState, SaveEvent};
use odonata::intro::{IntroAction, IntroState};

#[test]
fn resolution_follows_aspect_ratio() {
    assert_eq!(ConfigState::new(AspectRatio::Standard, false).screen_resolution(), (320, 240));
    assert_eq!(ConfigState::new(AspectRatio::Wide, false).screen_resolution(), (427, 240));
    assert_eq!(ConfigState::new(AspectRatio::Ultrawide, true).screen_resolution(), (573, 240));
}

#[test]
fn save_events_apply_in_order() {
    let mut state = ConfigState::new(AspectRatio::Standard, true);
    save_config(&mut state, &vec![]);
    assert_eq!(state.aspect_ratio(), AspectRatio::Standard);
    save_config(
        &mut state,
        &vec![SaveEvent::AspectRatio(AspectRatio::Ultrawide), SaveEvent::AspectRatio(AspectRatio::Wide)],
    );
    assert_eq!(state.aspect_ratio(), AspectRatio::Wide);
    assert!(state.fps);
}

#[test]
fn intro_shows_frames_then_fades_then_finishes() {
    let mut intro = IntroState::new(vec![2000, 500]);
    assert_eq!(intro.update(16), IntroAction::Show(1));
    assert_eq!(intro.update(300), IntroAction::Wait);
    assert_eq!(intro.update(300), IntroAction::Show(0));
    assert_eq!(intro.update(999), IntroAction::Wait);
    assert_eq!(intro.update(1), IntroAction::StartFade);
    assert_eq!(intro.update(10), IntroAction::Wait);
    assert_eq!(intro.update(5000), IntroAction::Finish);
    assert_eq!(intro.update(5000), IntroAction::Finish);
}

#[test]
fn empty_intro_finishes_at_once() {
    let mut intro = IntroState::new(vec![]);
    assert_eq!(intro.update(0), IntroAction::Finish);
}
