use gaia_s_pen::achievement::perfect_match;
use gaia_s_pen::achievement::time_xxx_s;
use gaia_s_pen::achievement::zero_repaint;
use gaia_s_pen::achievement::zero_undo;
use gaia_s_pen::achievement::AchievementProgressUi;
use gaia_s_pen::canvas::{to_canvas_pos, AppUiCanvasEntityMap};
use gaia_s_pen::slider::{build_slider_ui, handle_slider_mouse_clicking};

fn canvas() -> AppUiCanvasEntityMap {
    AppUiCanvasEntityMap { root: 1, fg: 2, bg: 3 }
}

#[test]
fn canvas_pos_is_centred_and_flipped() {
    assert_eq!(to_canvas_pos(1280, 720, 0, 0), (-640, 360));
    assert_eq!(to_canvas_pos(1280, 720, 640, 360), (0, 0));
    assert_eq!(to_canvas_pos(1280, 720, 1280, 720), (640, -360));
    assert_eq!(to_canvas_pos(1280, 720, 100, 700), (-540, -340));
}

#[test]
fn slider_starts_with_its_initial_value() {
    let s = build_slider_ui(canvas(), "bgm", 40);
    assert_eq!(s.target, "bgm");
    assert_eq!(s.value, 40);
    assert_eq!(s.canvas_em, canvas());
}

#[test]
fn clicking_the_middle_of_the_bar_sets_half() {
    let mut s = build_slider_ui(canvas(), "se", 0);
    let ev = handle_slider_mouse_clicking(&mut s, 1090, 1000);
    assert_eq!(s.value, 50);
    assert_eq!(ev.value, 50);
    assert_eq!(ev.target, "se");
}

#[test]
fn clicking_beyond_the_bar_clamps() {
    let mut s = build_slider_ui(canvas(), "se", 30);
    handle_slider_mouse_clicking(&mut s, 5000, 0);
    assert_eq!(s.value, 100);
    handle_slider_mouse_clicking(&mut s, -50, 0);
    assert_eq!(s.value, 0);
}

#[test]
fn clicking_the_end_of_the_bar_sets_full() {
    let mut s = build_slider_ui(canvas(), "se", 0);
    handle_slider_mouse_clicking(&mut s, 180, 0);
    assert_eq!(s.value, 100);
}

#[test]
fn perfect_match_achievement() {
    let a = perfect_match::AchievementDef;
    assert_eq!(a.code(), "perfact_match");
    assert_eq!(a.name(), "Impressionism");
    assert_eq!(a.description(), "Get the 100% perfect match.");
    assert_eq!(a.check_done(1000), (1000, 1000, true));
    assert_eq!(a.check_done(999), (999, 1000, false));
    assert_eq!(a.progress_ui(), AchievementProgressUi::Bar);
}

#[test]
fn time_achievement() {
    let a = time_xxx_s::AchievementDef;
    assert_eq!(a.code(), "time_xxx_s");
    assert_eq!(a.name(), "Cubism");
    assert_eq!(a.check_done(999), (999, 1000, true));
    assert_eq!(a.check_done(1000), (1000, 1000, false));
    assert_eq!(a.progress_ui(), AchievementProgressUi::Bar);
}

#[test]
fn zero_repaint_achievement() {
    let a = zero_repaint::AchievementDef;
    assert_eq!(a.code(), "zero_repaint");
    assert_eq!(a.name(), "Fauvism");
    assert_eq!(a.check_done(0), (0, 0, true));
    assert_eq!(a.check_done(1), (1, 0, false));
    assert_eq!(a.progress_ui(), AchievementProgressUi::Dots);
}

#[test]
fn zero_undo_achievement() {
    let a = zero_undo::AchievementDef;
    assert_eq!(a.code(), "zero_undo");
    assert_eq!(a.name(), "Expressionism");
    assert_eq!(a.check_done(0), (0, 0, true));
    assert_eq!(a.check_done(3), (3, 0, false));
    assert_eq!(a.progress_ui(), AchievementProgressUi::Dots);
}
