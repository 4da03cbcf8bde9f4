use copilot::asset::{AnimTable, ImageTable};
use copilot::font::default_font;
use copilot::menu::{choice_start, step_choice, Button, Cursor, Press};
use copilot::render::menu::{menu, menu_fits, MenuPage, MenuRow};
use copilot::render::Resources;
use copilot::{Color, MemorySurface, PixelFormat, Point, Rect, Size};

const WHITE: Color = Color { r: 255, g: 255, b: 255, a: 255 };
const AT: Rect = Rect { origin: Point { x: 0, y: 0 }, size: Size { w: 200, h: 120 } };

/// A brightness number and a units choice, as a page reads them.
fn rows(brightness: &str, units: &str) -> Vec<MenuRow> {
    vec![
        MenuRow { label: "Brightness".to_string(), value: brightness.to_string() },
        MenuRow { label: "Units".to_string(), value: units.to_string() },
    ]
}

fn page(title: &str, rows: Vec<MenuRow>, cursor: Cursor) -> MenuPage {
    let selected = cursor.selected(rows.len());
    MenuPage { title: title.to_string(), rows, selected, editing: cursor.editing }
}

fn draw_in(p: &MenuPage, at: Rect, clip: Rect, color: Color, selected: Color, editing: Color) -> MemorySurface {
    let mut s = MemorySurface::new(Size { w: 200, h: 120 }, PixelFormat::Bgrx8888);
    let font = default_font();
    let (images, anims) = (ImageTable::new(), AnimTable::new());
    let res = Resources { images: &images, anims: &anims, font: &font };
    assert!(menu_fits(p.rows.len(), at, &font, 2));
    menu(&mut s, p, at, clip, res, color, selected, editing, 2);
    s
}

/// Draw `p` and return every pixel, so two states can be compared.
fn render(p: &MenuPage) -> MemorySurface {
    draw_in(p, AT, AT, Color::rgb(100, 100, 100), WHITE, Color::rgb(255, 176, 0))
}

fn ink(s: &MemorySurface) -> usize {
    s.pixels().chunks_exact(4).filter(|p| p[3] != 0).count()
}

#[test]
fn a_menu_draws_its_title_and_its_items() {
    let s = render(&page("DISPLAY", rows("50", "metric"), Cursor::new()));
    assert!(ink(&s) > 0, "nothing was drawn at all");
}

#[test]
fn selecting_and_editing_look_different_from_each_other() {
    // A driver has to be able to tell whether up and down move the cursor
    // or change the number.
    let mut c = Cursor::new();
    let selected = render(&page("DISPLAY", rows("50", "metric"), c));
    assert_eq!(c.press(&[false, false], Button::Centre), Press::Moved);
    assert!(c.editing);
    let editing = render(&page("DISPLAY", rows("50", "metric"), c));
    assert_ne!(
        selected.pixels(),
        editing.pixels(),
        "editing an item looks identical to having it selected"
    );
}

#[test]
fn moving_the_cursor_changes_what_is_drawn() {
    let mut c = Cursor::new();
    let first = render(&page("DISPLAY", rows("50", "metric"), c));
    c.press(&[false, false], Button::Down);
    let second = render(&page("DISPLAY", rows("50", "metric"), c));
    assert_ne!(first.pixels(), second.pixels());
}

#[test]
fn changing_a_value_changes_what_is_drawn() {
    let mut c = Cursor::new();
    c.press(&[false, false], Button::Centre);
    let before = render(&page("DISPLAY", rows("50", "metric"), c));
    assert_eq!(c.press(&[false, false], Button::Right), Press::Step(1));
    // Brightness steps by ten.
    assert_ne!(render(&page("DISPLAY", rows("60", "metric"), c)).pixels(), before.pixels());
}

#[test]
fn a_menu_longer_than_its_box_stops_at_the_bottom_edge() {
    let long: Vec<MenuRow> = (0..40)
        .map(|i| MenuRow { label: format!("Item {i}"), value: String::new() })
        .collect();
    let p = page("LONG", long, Cursor::new());
    // A clip larger than the widget: nothing outside `at` may be painted.
    let s = draw_in(&p, Rect::new(0, 0, 200, 60), AT, WHITE, WHITE, WHITE);
    let stride = s.stride();
    let below = &s.pixels()[60 * stride..];
    assert!(
        below.chunks_exact(4).all(|p| p[3] == 0),
        "the menu ran past the bottom of its own rectangle"
    );
}

#[test]
fn an_empty_menu_draws_only_its_title() {
    let empty = render(&page("EMPTY", Vec::new(), Cursor::new()));
    assert!(ink(&empty) > 0, "the title should still draw");
}

#[test]
fn an_empty_box_draws_nothing() {
    let p = page("DISPLAY", rows("50", "metric"), Cursor::new());
    let s = draw_in(&p, Rect::new(0, 0, 0, 120), AT, WHITE, WHITE, WHITE);
    assert_eq!(ink(&s), 0);
}

#[test]
fn only_the_selected_row_gets_a_bar() {
    // With the cursor on the first row, its dimmed bar spans the whole row
    // width, including the columns right of the text.
    let p = page("DISPLAY", rows("", ""), Cursor::new());
    let s = draw_in(&p, AT, AT, WHITE, Color::rgb(200, 200, 200), WHITE);
    let row_h = 7 * 2 + 2 * 2;
    let px = |x: usize, y: usize| {
        let o = y * s.stride() + x * 4;
        [s.pixels()[o], s.pixels()[o + 1], s.pixels()[o + 2]]
    };
    // Rows start two row heights down; the first is selected.
    assert_eq!(px(199, 2 * row_h), [50, 50, 50], "a quarter of the selected colour");
    assert_eq!(px(199, 3 * row_h), [0, 0, 0], "the second row has no bar");
}

#[test]
fn a_menu_too_low_on_the_screen_does_not_fit() {
    let font = default_font();
    assert!(menu_fits(3, AT, &font, 2));
    let low = Rect::new(0, i32::MAX - 20, 200, 10);
    assert!(!menu_fits(1, low, &font, 2));
    assert!(menu_fits(0, low, &font, 2), "with no rows nothing is placed");
    let far_right = Rect::new(i32::MAX - 2, 0, 10, 200);
    assert!(!menu_fits(1, far_right, &font, 2), "the inset would pass i32::MAX");
}

#[test]
fn up_and_down_move_the_cursor_and_stop_at_the_ends() {
    let actions = [false, false, true];
    let mut c = Cursor::new();
    assert_eq!(c.press(&actions, Button::Up), Press::Nothing, "already at the top");
    assert_eq!(c.selected(actions.len()), Some(0));
    assert_eq!(c.press(&actions, Button::Down), Press::Moved);
    assert_eq!(c.press(&actions, Button::Down), Press::Moved);
    assert_eq!(c.selected(actions.len()), Some(2));
    assert_eq!(c.press(&actions, Button::Down), Press::Nothing, "already at the bottom");
}

#[test]
fn centre_closes_the_item_it_opened() {
    let actions = [false, false, true];
    let mut c = Cursor::new();
    c.press(&actions, Button::Centre);
    assert!(c.editing);
    assert_eq!(c.press(&actions, Button::Centre), Press::Moved);
    assert!(!c.editing);
}

#[test]
fn an_empty_menu_answers_every_press_with_nothing() {
    let mut c = Cursor::new();
    for b in [Button::Up, Button::Down, Button::Left, Button::Right, Button::Centre] {
        assert_eq!(c.press(&[], b), Press::Nothing);
    }
    assert_eq!(c.selected(0), None);
}

#[test]
fn a_value_only_steps_once_centre_has_opened_it() {
    let actions = [false, false, true];
    let mut c = Cursor::new();
    assert_eq!(c.press(&actions, Button::Right), Press::Nothing);
    assert_eq!(c.press(&actions, Button::Left), Press::Nothing);
    assert_eq!(c.press(&actions, Button::Centre), Press::Moved);
    assert!(c.editing);
    assert_eq!(c.press(&actions, Button::Right), Press::Step(1));
    assert_eq!(c.press(&actions, Button::Up), Press::Step(1));
    assert_eq!(c.press(&actions, Button::Left), Press::Step(-1));
    assert_eq!(c.press(&actions, Button::Down), Press::Step(-1));
    assert_eq!(c.selected(actions.len()), Some(0), "stepping does not move the cursor");
}

#[test]
fn an_action_fires_on_centre_instead_of_opening() {
    let actions = [false, false, true];
    let mut c = Cursor::new();
    c.press(&actions, Button::Down);
    c.press(&actions, Button::Down);
    assert_eq!(c.press(&actions, Button::Centre), Press::Fire);
    assert!(!c.editing, "an action has nothing to edit");
}

#[test]
fn a_cursor_past_the_end_is_pulled_back_onto_the_last_item() {
    let mut c = Cursor { selected: 9, editing: false };
    assert_eq!(c.press(&[false, false], Button::Left), Press::Nothing);
    assert_eq!(c.selected, 1);
}

#[test]
fn a_choice_walks_its_options_and_does_not_wrap() {
    let actions = [false, false, true];
    let mut c = Cursor::new();
    c.press(&actions, Button::Down);
    c.press(&actions, Button::Centre);
    assert_eq!(c.press(&actions, Button::Right), Press::Step(1));
    assert_eq!(step_choice(0, 2, 1), (1, true));
    assert_eq!(c.press(&actions, Button::Right), Press::Step(1));
    assert_eq!(step_choice(1, 2, 1), (1, false));
}

#[test]
fn a_choice_defaulting_past_its_options_opens_on_the_first() {
    assert_eq!(choice_start(9, 2), 0);
    assert_eq!(choice_start(1, 2), 1);
}

#[test]
fn a_choice_with_no_options_cannot_be_stepped() {
    assert_eq!(step_choice(0, 0, 1), (0, false));
}

#[test]
fn a_choice_steps_back_and_stops_at_the_first() {
    assert_eq!(step_choice(2, 5, -1), (1, true));
    assert_eq!(step_choice(0, 5, -1), (0, false));
    assert_eq!(step_choice(3, 5, 10), (4, true));
}

#[test]
fn a_menu_repainted_in_a_strip_stays_in_the_strip() {
    let p = page("DISPLAY", rows("50", "metric"), Cursor::new());
    let strip = Rect::new(10, 40, 120, 12);
    let s = draw_in(&p, AT, strip, WHITE, WHITE, WHITE);
    let stride = s.stride();
    let mut inside = 0;
    for y in 0..120usize {
        for x in 0..200usize {
            let lit = s.pixels()[y * stride + x * 4 + 3] != 0;
            let in_strip = (10..130).contains(&x) && (40..52).contains(&y);
            assert!(!lit || in_strip, "painted ({x}, {y}) outside the damage strip");
            inside += usize::from(lit);
        }
    }
    assert!(inside > 0, "the selected row's bar crosses the strip");
}
