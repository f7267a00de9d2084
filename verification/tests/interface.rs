use pdf_ops::tui::theme::{resolve, Rgb, Theme};
use pdf_ops::tui::{next_action, TuiAction, TuiEvent};

#[test]
fn q_quits_and_everything_else_continues() {
    assert_eq!(next_action(Some(TuiEvent::Char('q'))), TuiAction::Quit);
    assert_eq!(next_action(Some(TuiEvent::Char('Q'))), TuiAction::Continue);
    assert_eq!(next_action(Some(TuiEvent::Char('x'))), TuiAction::Continue);
    assert_eq!(next_action(Some(TuiEvent::OtherKey)), TuiAction::Continue);
    assert_eq!(next_action(Some(TuiEvent::Other)), TuiAction::Continue);
    assert_eq!(next_action(None), TuiAction::Continue);
}

#[test]
fn themes_hold_their_palettes() {
    let dark = Theme::gitui_dark();
    assert_eq!(dark.bg, Rgb { r: 12, g: 12, b: 12 });
    assert_eq!(dark.accent, Rgb { r: 88, g: 166, b: 255 });
    assert_eq!(dark.error, Rgb { r: 248, g: 81, b: 73 });
    let light = Theme::light();
    assert_eq!(light.bg, Rgb { r: 250, g: 250, b: 250 });
    assert_eq!(light.accent, Rgb { r: 25, g: 118, b: 210 });
    assert_eq!(light.error, Rgb { r: 211, g: 47, b: 47 });
    assert_eq!(light.ok, dark.ok);
}

#[test]
fn resolve_picks_light_by_name_and_dark_otherwise() {
    assert_eq!(resolve(Some("light".to_string())), Theme::light());
    assert_eq!(resolve(Some("dark".to_string())), Theme::gitui_dark());
    assert_eq!(resolve(Some("Light".to_string())), Theme::gitui_dark());
    assert_eq!(resolve(None), Theme::gitui_dark());
}
