use pager::binds::{find_bind, Bind};
use pager::keys::Key;
use pager::pages::Page;
use pager::screen::render;
use pager::viewer::{next_notice, Action, Event, Viewer};

fn page(lines: Vec<&str>) -> Page<'_> {
    Page { title: None, lines }
}

fn press(v: &mut Viewer, pages: &[Page<'_>], height: usize, keys: &[Key]) -> Action {
    let mut action = Action::Stay;
    for key in keys {
        action = v.step(Event::Key(*key), pages, height, &[]);
    }
    action
}

fn three_pages() -> Vec<Page<'static>> {
    vec![page(vec!["x"; 30]), page(vec!["y"; 3]), page(vec!["z"; 8])]
}

#[test]
fn keys_scroll() {
    let pages = three_pages();
    let mut v = Viewer::new();
    press(&mut v, &pages, 10, &[Key::Char('j'), Key::Down]);
    assert_eq!(v.scroll, 2);
    press(&mut v, &pages, 10, &[Key::Char('k'), Key::Up, Key::Up]);
    assert_eq!(v.scroll, 0);
    press(&mut v, &pages, 10, &[Key::Char('d'), Key::PageDown]);
    assert_eq!(v.scroll, 10);
    press(&mut v, &pages, 10, &[Key::Char('u')]);
    assert_eq!(v.scroll, 5);
    press(&mut v, &pages, 10, &[Key::PageUp, Key::PageUp]);
    assert_eq!(v.scroll, 0);
    press(&mut v, &pages, 1, &[Key::Char('d')]);
    assert_eq!(v.scroll, 1);
    press(&mut v, &pages, 10, &[Key::Char('G')]);
    assert_eq!(v.scroll, 20);
    press(&mut v, &pages, 10, &[Key::Char('j'), Key::PageDown]);
    assert_eq!(v.scroll, 20);
    press(&mut v, &pages, 10, &[Key::Home]);
    assert_eq!(v.scroll, 0);
    press(&mut v, &pages, 10, &[Key::End]);
    assert_eq!(v.scroll, 20);
}

#[test]
fn g_is_a_prefix() {
    let pages = three_pages();
    let mut v = Viewer::new();
    press(&mut v, &pages, 10, &[Key::Char('g'), Key::Char('e')]);
    assert_eq!((v.scroll, v.prev_key), (20, None));
    press(&mut v, &pages, 10, &[Key::Char('g')]);
    assert_eq!((v.scroll, v.prev_key), (20, Some(Key::Char('g'))));
    press(&mut v, &pages, 10, &[Key::Char('g')]);
    assert_eq!((v.scroll, v.prev_key), (0, None));
    press(&mut v, &pages, 10, &[Key::Char('e')]);
    assert_eq!(v.scroll, 0);
    press(&mut v, &pages, 10, &[Key::Char('g'), Key::Char('j'), Key::Char('e')]);
    assert_eq!(v.scroll, 1);
    press(&mut v, &pages, 10, &[Key::Char('g'), Key::Char('g'), Key::Char('e')]);
    assert_eq!(v.scroll, 0);
}

#[test]
fn keys_turn_pages() {
    let pages = three_pages();
    let mut v = Viewer::new();
    press(&mut v, &pages, 10, &[Key::Char('j'), Key::Char('l')]);
    assert_eq!((v.page, v.scroll), (1, 0));
    press(&mut v, &pages, 2, &[Key::Char('j'), Key::Right]);
    assert_eq!((v.page, v.scroll), (2, 0));
    press(&mut v, &pages, 2, &[Key::Char('j'), Key::Right]);
    assert_eq!((v.page, v.scroll), (2, 1));
    press(&mut v, &pages, 2, &[Key::Char('h')]);
    assert_eq!((v.page, v.scroll), (1, 0));
    press(&mut v, &pages, 2, &[Key::Left, Key::Char('j'), Key::Left]);
    assert_eq!((v.page, v.scroll), (0, 1));
}

#[test]
fn quit_and_resize() {
    let pages = three_pages();
    let mut v = Viewer::new();
    assert_eq!(press(&mut v, &pages, 10, &[Key::Char('q')]), Action::Quit);
    assert_eq!(press(&mut v, &pages, 10, &[Key::Esc]), Action::Quit);
    assert_eq!(press(&mut v, &pages, 10, &[Key::Char('x'), Key::Other]), Action::Stay);
    press(&mut v, &pages, 10, &[Key::End]);
    assert_eq!(v.step(Event::Resize, &pages, 25, &[]), Action::Stay);
    assert_eq!((v.page, v.scroll), (0, 5));
    assert_eq!(v.step(Event::Other, &pages, 25, &[]), Action::Stay);
    assert_eq!((v.scroll, v.prev_key), (5, Some(Key::End)));
}

#[test]
fn binds_go_before_built_in_keys() {
    let pages = three_pages();
    let bind = |key: Key| Bind { key, run: String::new() };
    let binds = [bind(Key::Char('o')), bind(Key::Char('q')), bind(Key::Char('q'))];
    let mut v = Viewer::new();
    assert_eq!(v.step(Event::Key(Key::Char('q')), &pages, 10, &binds), Action::Run(1));
    assert_eq!(v.step(Event::Key(Key::Esc), &pages, 10, &binds), Action::Quit);
    assert_eq!(find_bind(&binds, Key::Char('o')), Some(0));
    assert_eq!(find_bind(&binds, Key::Enter), None);
}

#[test]
fn there_and_back() {
    let pages = three_pages();
    let mut v = Viewer::new();
    press(&mut v, &pages, 10, &[Key::Char('d'), Key::Char('j'), Key::Char('k')]);
    assert_eq!((v.page, v.scroll), (0, 5));
    press(&mut v, &pages, 10, &[Key::Char('l'), Key::Char('h')]);
    assert_eq!((v.page, v.scroll), (0, 0));
}

#[test]
fn every_state_can_be_drawn() {
    let pages = three_pages();
    let keys = [
        Key::Char('d'), Key::Char('G'), Key::Char('l'), Key::End, Key::Char('u'), Key::Right,
        Key::Char('g'), Key::Char('e'), Key::Left, Key::PageDown, Key::Char('g'), Key::Char('g'),
    ];
    let mut v = Viewer::new();
    for (k, height) in [1usize, 4, 9, 40, 2, 0].iter().cycle().take(72).enumerate() {
        press(&mut v, &pages, *height, &[keys[k % keys.len()]]);
        let mut out = Vec::new();
        let shown = &pages[v.page];
        render(&mut out, shown, v.scroll, *height, 20, 41, v.page, pages.len());
        let rows = shown.lines.len().saturating_sub(v.scroll).min(*height);
        let letters = out.iter().filter(|b| b"xyz".contains(b)).count();
        assert_eq!(letters, rows);
    }
}

#[test]
fn a_notice_stays_until_a_key_is_pressed() {
    let some = |text: &str| Some(text.to_string());
    assert_eq!(next_notice(None, false, some("a")), some("a"));
    assert_eq!(next_notice(some("a"), false, None), some("a"));
    assert_eq!(next_notice(some("a"), true, None), None);
    assert_eq!(next_notice(some("a"), false, some("b")), some("b"));
    assert_eq!(next_notice(some("a"), true, some("b")), some("b"));
    assert_eq!(next_notice(None, true, None), None);
}
