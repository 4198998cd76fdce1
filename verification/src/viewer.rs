//! What the keys do: moving over the pages.

use vstd::prelude::*;

use crate::binds::{find_bind, Bind};
#[allow(unused_imports)]
use crate::binds::{bind_keys, first_bind, lemma_first_bind};
use crate::keys::Key;
use crate::pages::Page;
#[allow(unused_imports)]
use crate::pattern::opt_view;
#[allow(unused_imports)]
use crate::screen::visible_end;

verus! {

/// What the terminal reports.
#[derive(Debug)]
pub enum Event {
    Key(Key),
    Resize,
    Other,
}

/// What is to be done after an event.
#[derive(Clone, Copy, Debug, PartialEq, Eq, Structural)]
pub enum Action {
    /// Leave the pager.
    Quit,
    /// Draw again and wait for the next event.
    Stay,
    /// Run the bind of that index, then go on.
    Run(usize),
}

/// Which page is shown, from which line on, and the key pressed before.
#[derive(Debug)]
pub struct Viewer {
    pub page: usize,
    pub scroll: usize,
    pub prev_key: Option<Key>,
}

/// What a `Viewer` says.
pub struct ViewerView {
    pub page: int,
    pub scroll: int,
    pub prev_key: Option<Key>,
}

impl View for Viewer {
    type V = ViewerView;

    open spec fn view(&self) -> ViewerView {
        ViewerView { page: self.page as int, scroll: self.scroll as int, prev_key: self.prev_key }
    }
}

/// The number of lines of each page.
pub open spec fn line_counts<'a>(pages: Seq<Page<'a>>) -> Seq<int> {
    Seq::new(pages.len(), |i: int| pages[i].lines@.len() as int)
}

/// The viewer stands on a page and not below its last line.
pub open spec fn on_page(v: ViewerView, counts: Seq<int>) -> bool {
    &&& 0 <= v.page < counts.len()
    &&& 0 <= v.scroll <= counts[v.page]
}

/// How far a page of `len` lines can be scrolled where `height` lines fit.
pub open spec fn max_scroll(len: int, height: int) -> int {
    if len > height {
        len - height
    } else {
        0
    }
}

/// How far half a page is: half of the lines that fit, at least one.
pub open spec fn half_page(height: int) -> int {
    if height / 2 > 1 {
        height / 2
    } else {
        1
    }
}

/// The smaller number.
pub open spec fn least(a: int, b: int) -> int {
    if a < b {
        a
    } else {
        b
    }
}

/// `a - b`, not below zero.
pub open spec fn less(a: int, b: int) -> int {
    if a > b {
        a - b
    } else {
        0
    }
}

/// The scroll position that a key leads to on a page of `len` lines.
pub open spec fn scrolled(scroll: int, key: Key, len: int, height: int) -> int {
    let max = max_scroll(len, height);
    match key {
        Key::Char('j') | Key::Down => least(max, scroll + 1),
        Key::Char('k') | Key::Up => less(scroll, 1),
        Key::Char('d') | Key::PageDown => least(max, scroll + half_page(height)),
        Key::Char('u') | Key::PageUp => less(scroll, half_page(height)),
        Key::Char('G') | Key::End => max,
        Key::Home => 0,
        _ => scroll,
    }
}

/// What a key without a bind does.
pub open spec fn after_key(v: ViewerView, key: Key, counts: Seq<int>, height: int) -> (
    ViewerView,
    Action,
) {
    let len = counts[v.page];
    let seen = ViewerView { prev_key: Some(key), ..v };
    if key == Key::Char('q') || key == Key::Esc {
        (v, Action::Quit)
    } else if key == Key::Char('g') && v.prev_key == Some(Key::Char('g')) {
        (ViewerView { scroll: 0, prev_key: None, ..v }, Action::Stay)
    } else if key == Key::Char('e') && v.prev_key == Some(Key::Char('g')) {
        (ViewerView { scroll: max_scroll(len, height), prev_key: None, ..v }, Action::Stay)
    } else if key == Key::Char('l') || key == Key::Right {
        if v.page + 1 < counts.len() {
            (ViewerView { page: v.page + 1, scroll: 0, ..seen }, Action::Stay)
        } else {
            (seen, Action::Stay)
        }
    } else if key == Key::Char('h') || key == Key::Left {
        if v.page > 0 {
            (ViewerView { page: v.page - 1, scroll: 0, ..seen }, Action::Stay)
        } else {
            (seen, Action::Stay)
        }
    } else {
        (ViewerView { scroll: scrolled(v.scroll, key, len, height), ..seen }, Action::Stay)
    }
}

/// What an event does, where `height` lines fit on the screen. A bind goes before
/// the built-in meaning of its key.
pub open spec fn after(
    v: ViewerView,
    event: Event,
    counts: Seq<int>,
    height: int,
    binds: Seq<Key>,
) -> (ViewerView, Action) {
    match event {
        Event::Key(key) => match first_bind(binds, key) {
            Some(i) => (ViewerView { prev_key: None, ..v }, Action::Run(i as usize)),
            None => after_key(v, key, counts, height),
        },
        Event::Resize => (
            ViewerView { scroll: least(v.scroll, max_scroll(counts[v.page], height)), ..v },
            Action::Stay,
        ),
        Event::Other => (v, Action::Stay),
    }
}

impl Viewer {
    /// The viewer at the top of the first page.
    pub fn new() -> (v: Viewer)
        ensures
            v@ == (ViewerView { page: 0, scroll: 0, prev_key: None }),
    {
        Viewer { page: 0, scroll: 0, prev_key: None }
    }

    /// Takes an event in, where `content_h` lines fit on the screen, and says what
    /// is to be done.
    pub fn step(
        &mut self,
        event: Event,
        pages: &[Page<'_>],
        content_h: usize,
        binds: &[Bind],
    ) -> (action: Action)
        requires
            on_page(old(self)@, line_counts(pages@)),
        ensures
            (final(self)@, action) == after(
                old(self)@,
                event,
                line_counts(pages@),
                content_h as int,
                bind_keys(binds@),
            ),
            on_page(final(self)@, line_counts(pages@)),
            action matches Action::Run(i) ==> i < binds@.len(),
            event matches Event::Key(key) ==> match action {
                Action::Run(i) => binds@[i as int].key == key && forall|k: int|
                    0 <= k < i ==> (#[trigger] binds@[k]).key != key,
                _ => forall|k: int| 0 <= k < binds@.len() ==> (#[trigger] binds@[k]).key != key,
            },
            event is Resize || event is Other ==> action == Action::Stay,
    {
        proof {
            if let Event::Key(key) = event {
                lemma_first_bind(bind_keys(binds@), key);
                assert(forall|k: int|
                    0 <= k < binds@.len() ==> (#[trigger] binds@[k]).key == bind_keys(binds@)[k]);
            }
        }
        let len: usize = pages[self.page].lines.len();
        let total: usize = pages.len();
        let max: usize = if len > content_h {
            len - content_h
        } else {
            0
        };
        let half: usize = if content_h / 2 > 1 {
            content_h / 2
        } else {
            1
        };
        let key = match event {
            Event::Key(key) => key,
            Event::Resize => {
                if self.scroll > max {
                    self.scroll = max;
                }
                return Action::Stay;
            },
            Event::Other => {
                return Action::Stay;
            },
        };
        if let Some(i) = find_bind(binds, key) {
            self.prev_key = None;
            return Action::Run(i);
        }
        match key {
            Key::Char('q') | Key::Esc => {
                return Action::Quit;
            },
            Key::Char('j') | Key::Down => {
                self.scroll = if self.scroll < max {
                    self.scroll + 1
                } else {
                    max
                };
            },
            Key::Char('k') | Key::Up => {
                self.scroll = if self.scroll > 1 {
                    self.scroll - 1
                } else {
                    0
                };
            },
            Key::Char('d') | Key::PageDown => {
                self.scroll = if self.scroll < max && half < max - self.scroll {
                    self.scroll + half
                } else {
                    max
                };
            },
            Key::Char('u') | Key::PageUp => {
                self.scroll = if self.scroll > half {
                    self.scroll - half
                } else {
                    0
                };
            },
            Key::Char('g') => {
                if self.prev_key == Some(Key::Char('g')) {
                    self.scroll = 0;
                    self.prev_key = None;
                    return Action::Stay;
                }
            },
            Key::Char('e') => {
                if self.prev_key == Some(Key::Char('g')) {
                    self.scroll = max;
                    self.prev_key = None;
                    return Action::Stay;
                }
            },
            Key::Char('G') | Key::End => {
                self.scroll = max;
            },
            Key::Home => {
                self.scroll = 0;
            },
            Key::Char('l') | Key::Right => {
                if self.page < total - 1 {
                    self.page = self.page + 1;
                    self.scroll = 0;
                }
            },
            Key::Char('h') | Key::Left => {
                if self.page > 0 {
                    self.page = self.page - 1;
                    self.scroll = 0;
                }
            },
            _ => {},
        }
        self.prev_key = Some(key);
        Action::Stay
    }
}

/// The notice after an event or a failure.
pub open spec fn notice_after(
    notice: Option<Seq<char>>,
    key_pressed: bool,
    failure: Option<Seq<char>>,
) -> Option<Seq<char>> {
    if failure is Some {
        failure
    } else if key_pressed {
        None
    } else {
        notice
    }
}

/// The notice to show next: the latest failure of a bind's command, until a key is
/// pressed.
pub fn next_notice(notice: Option<String>, key_pressed: bool, failure: Option<String>) -> (next:
    Option<String>)
    ensures
        next == match failure {
            Some(_) => failure,
            None => if key_pressed {
                None
            } else {
                notice
            },
        },
        opt_view(next) == notice_after(opt_view(notice), key_pressed, opt_view(failure)),
{
    match failure {
        Some(_) => failure,
        None => if key_pressed {
            None
        } else {
            notice
        },
    }
}

/// A bind goes before the built-in meaning of its key: the command is run, and
/// neither the page nor the scroll position changes.
pub proof fn law_binds_go_first(
    v: ViewerView,
    key: Key,
    counts: Seq<int>,
    height: int,
    binds: Seq<Key>,
)
    requires
        binds.contains(key),
    ensures
        ({
            let (w, action) = after(v, Event::Key(key), counts, height, binds);
            &&& w.page == v.page
            &&& w.scroll == v.scroll
            &&& exists|i: int|
                0 <= i < binds.len() && #[trigger] binds[i] == key && action == Action::Run(
                    i as usize,
                ) && !binds.take(i).contains(key)
        }),
{
    lemma_first_bind(binds, key);
    let i = first_bind(binds, key)->0;
    assert(binds[i] == key);
    assert forall|k: int| 0 <= k < i implies binds.take(i)[k] != key by {}
}

/// Without a bind, `q` and `Esc` leave the pager, and nothing else does.
pub proof fn law_quit(
    v: ViewerView,
    event: Event,
    counts: Seq<int>,
    height: int,
    binds: Seq<Key>,
)
    ensures
        after(v, event, counts, height, binds).1 == Action::Quit <==> (event matches Event::Key(key)
            && !binds.contains(key) && (key == Key::Char('q') || key == Key::Esc)),
{
    if let Event::Key(key) = event {
        lemma_first_bind(binds, key);
        if binds.contains(key) {
            assert(first_bind(binds, key) is Some);
        }
    }
}

/// `gg` goes to the top of the page, whatever was pressed before.
pub proof fn law_gg_goes_to_the_top(
    v: ViewerView,
    counts: Seq<int>,
    height: int,
    binds: Seq<Key>,
)
    requires
        !binds.contains(Key::Char('g')),
    ensures
        ({
            let g = Event::Key(Key::Char('g'));
            let w = after(after(v, g, counts, height, binds).0, g, counts, height, binds).0;
            w.page == v.page && w.scroll == 0
        }),
{
    lemma_first_bind(binds, Key::Char('g'));
}

/// `ge` goes to the bottom of the page, unless the `g` completes a `gg`.
pub proof fn law_ge_goes_to_the_bottom(
    v: ViewerView,
    counts: Seq<int>,
    height: int,
    binds: Seq<Key>,
)
    requires
        !binds.contains(Key::Char('g')),
        !binds.contains(Key::Char('e')),
        v.prev_key != Some(Key::Char('g')),
    ensures
        ({
            let w = after(
                after(v, Event::Key(Key::Char('g')), counts, height, binds).0,
                Event::Key(Key::Char('e')),
                counts,
                height,
                binds,
            ).0;
            w.page == v.page && w.scroll == max_scroll(counts[v.page], height)
        }),
{
    lemma_first_bind(binds, Key::Char('g'));
    lemma_first_bind(binds, Key::Char('e'));
}

/// At the bottom of a page its last line is shown, and a page longer than the
/// screen fills it.
pub proof fn law_bottom_shows_the_last_line(len: int, height: int)
    requires
        0 <= len,
        0 <= height,
    ensures
        visible_end(len, max_scroll(len, height), height) == len,
        len >= height ==> len - max_scroll(len, height) == height,
{
}

/// The page after and then the page before is the same page, at its top.
pub proof fn law_next_then_previous(v: ViewerView, counts: Seq<int>, height: int)
    requires
        0 <= v.page < counts.len() - 1,
    ensures
        ({
            let w = after_key(
                after_key(v, Key::Char('l'), counts, height).0,
                Key::Char('h'),
                counts,
                height,
            ).0;
            w.page == v.page && w.scroll == 0
        }),
{
}

/// One line down and then one line up is the same place, short of the bottom.
pub proof fn law_down_then_up(v: ViewerView, counts: Seq<int>, height: int)
    requires
        0 <= v.scroll < max_scroll(counts[v.page], height),
    ensures
        ({
            let w = after_key(
                after_key(v, Key::Char('j'), counts, height).0,
                Key::Char('k'),
                counts,
                height,
            ).0;
            w.page == v.page && w.scroll == v.scroll
        }),
{
}

/// No event scrolls past the bottom: a position from which the page's last line
/// is at the bottom of the screen or below stays such a one.
pub proof fn law_scroll_stays_in_range(
    v: ViewerView,
    event: Event,
    counts: Seq<int>,
    height: int,
    binds: Seq<Key>,
)
    requires
        on_page(v, counts),
        forall|i: int| 0 <= i < counts.len() ==> 0 <= #[trigger] counts[i],
        0 <= height,
        v.scroll <= max_scroll(counts[v.page], height),
    ensures
        ({
            let w = after(v, event, counts, height, binds).0;
            on_page(w, counts) && w.scroll <= max_scroll(counts[w.page], height)
        }),
{
}

/// A resize leaves the page where it is and brings the position back into range.
pub proof fn law_resize_brings_into_range(
    v: ViewerView,
    counts: Seq<int>,
    height: int,
    binds: Seq<Key>,
)
    ensures
        ({
            let w = after(v, Event::Resize, counts, height, binds).0;
            w.page == v.page && w.scroll <= v.scroll && w.scroll <= max_scroll(
                counts[v.page],
                height,
            )
        }),
{
}

/// Whatever the events were, the page can be drawn.
pub proof fn law_every_state_can_be_drawn(v: ViewerView, counts: Seq<int>, height: int)
    requires
        on_page(v, counts),
        0 <= height <= u16::MAX,
    ensures
        0 <= v.scroll <= counts[v.page],
        v.scroll <= visible_end(counts[v.page], v.scroll, height),
        visible_end(counts[v.page], v.scroll, height) - v.scroll <= u16::MAX,
{
}

/// `l` and the right arrow turn to the page after, at its top. On the last page
/// nothing moves.
pub proof fn law_next_page(
    v: ViewerView,
    key: Key,
    counts: Seq<int>,
    height: int,
    binds: Seq<Key>,
)
    requires
        key == Key::Char('l') || key == Key::Right,
        !binds.contains(key),
    ensures
        ({
            let (w, action) = after(v, Event::Key(key), counts, height, binds);
            &&& action == Action::Stay
            &&& v.page + 1 < counts.len() ==> w.page == v.page + 1 && w.scroll == 0
            &&& v.page + 1 >= counts.len() ==> w.page == v.page && w.scroll == v.scroll
        }),
{
    lemma_first_bind(binds, key);
}

/// `h` and the left arrow turn to the page before, at its top. On the first page
/// nothing moves.
pub proof fn law_previous_page(
    v: ViewerView,
    key: Key,
    counts: Seq<int>,
    height: int,
    binds: Seq<Key>,
)
    requires
        key == Key::Char('h') || key == Key::Left,
        !binds.contains(key),
    ensures
        ({
            let (w, action) = after(v, Event::Key(key), counts, height, binds);
            &&& action == Action::Stay
            &&& v.page > 0 ==> w.page == v.page - 1 && w.scroll == 0
            &&& v.page <= 0 ==> w.page == v.page && w.scroll == v.scroll
        }),
{
    lemma_first_bind(binds, key);
}

/// `j` and the down arrow scroll down by one line as long as there are lines below
/// the screen, and no further than to where the last line is at its bottom.
pub proof fn law_scroll_down(
    v: ViewerView,
    key: Key,
    counts: Seq<int>,
    height: int,
    binds: Seq<Key>,
)
    requires
        key == Key::Char('j') || key == Key::Down,
        !binds.contains(key),
        0 <= v.scroll,
        0 <= height,
    ensures
        ({
            let len = counts[v.page];
            let (w, action) = after(v, Event::Key(key), counts, height, binds);
            &&& action == Action::Stay && w.page == v.page
            &&& v.scroll + 1 + height <= len ==> w.scroll == v.scroll + 1
            &&& v.scroll + 1 + height > len && height <= len ==> w.scroll + height == len
            &&& height > len ==> w.scroll == 0
        }),
{
    lemma_first_bind(binds, key);
}

/// `k` and the up arrow scroll up by one line, to the top at most.
pub proof fn law_scroll_up(
    v: ViewerView,
    key: Key,
    counts: Seq<int>,
    height: int,
    binds: Seq<Key>,
)
    requires
        key == Key::Char('k') || key == Key::Up,
        !binds.contains(key),
        0 <= v.scroll,
    ensures
        ({
            let (w, action) = after(v, Event::Key(key), counts, height, binds);
            &&& action == Action::Stay && w.page == v.page
            &&& v.scroll > 0 ==> w.scroll == v.scroll - 1
            &&& v.scroll == 0 ==> w.scroll == 0
        }),
{
    lemma_first_bind(binds, key);
}

/// `d` and page down scroll down by `half` lines, half of those that fit and at
/// least one, and no further than to where the last line is at the bottom.
pub proof fn law_half_page_down(
    v: ViewerView,
    key: Key,
    counts: Seq<int>,
    height: int,
    half: int,
    binds: Seq<Key>,
)
    requires
        key == Key::Char('d') || key == Key::PageDown,
        !binds.contains(key),
        0 <= v.scroll,
        0 <= height,
        height < 2 ==> half == 1,
        height >= 2 ==> 2 * half == height || 2 * half + 1 == height,
    ensures
        ({
            let len = counts[v.page];
            let (w, action) = after(v, Event::Key(key), counts, height, binds);
            &&& action == Action::Stay && w.page == v.page
            &&& v.scroll + half + height <= len ==> w.scroll == v.scroll + half
            &&& v.scroll + half + height > len && height <= len ==> w.scroll + height == len
            &&& height > len ==> w.scroll == 0
        }),
{
    lemma_first_bind(binds, key);
}

/// `u` and page up scroll up by `half` lines, half of those that fit and at least
/// one, to the top at most.
pub proof fn law_half_page_up(
    v: ViewerView,
    key: Key,
    counts: Seq<int>,
    height: int,
    half: int,
    binds: Seq<Key>,
)
    requires
        key == Key::Char('u') || key == Key::PageUp,
        !binds.contains(key),
        0 <= v.scroll,
        0 <= height,
        height < 2 ==> half == 1,
        height >= 2 ==> 2 * half == height || 2 * half + 1 == height,
    ensures
        ({
            let (w, action) = after(v, Event::Key(key), counts, height, binds);
            &&& action == Action::Stay && w.page == v.page
            &&& v.scroll >= half ==> w.scroll == v.scroll - half
            &&& v.scroll < half ==> w.scroll == 0
        }),
{
    lemma_first_bind(binds, key);
}

/// `Home`, and `g` after `g`, go to the top.
pub proof fn law_top(v: ViewerView, key: Key, counts: Seq<int>, height: int, binds: Seq<Key>)
    requires
        key == Key::Home || key == Key::Char('g') && v.prev_key == Some(Key::Char('g')),
        !binds.contains(key),
    ensures
        ({
            let (w, action) = after(v, Event::Key(key), counts, height, binds);
            action == Action::Stay && w.page == v.page && w.scroll == 0
        }),
{
    lemma_first_bind(binds, key);
}

/// `G`, `End`, and `e` after `g`, go to the bottom: the last line is then the last
/// on the screen. A page that fits on the screen is at its top.
pub proof fn law_bottom(v: ViewerView, key: Key, counts: Seq<int>, height: int, binds: Seq<Key>)
    requires
        key == Key::Char('G') || key == Key::End || key == Key::Char('e') && v.prev_key == Some(
            Key::Char('g'),
        ),
        !binds.contains(key),
    ensures
        ({
            let len = counts[v.page];
            let (w, action) = after(v, Event::Key(key), counts, height, binds);
            &&& action == Action::Stay && w.page == v.page
            &&& height <= len ==> w.scroll + height == len
            &&& height > len ==> w.scroll == 0
        }),
{
    lemma_first_bind(binds, key);
}

/// Keys that mean nothing move nothing, and neither do `g` and `e` on their own.
pub proof fn law_other_keys_move_nothing(
    v: ViewerView,
    key: Key,
    counts: Seq<int>,
    height: int,
    binds: Seq<Key>,
)
    requires
        !binds.contains(key),
        key != Key::Char('q') && key != Key::Esc,
        key != Key::Char('j') && key != Key::Down && key != Key::Char('k') && key != Key::Up,
        key != Key::Char('d') && key != Key::PageDown && key != Key::Char('u') && key
            != Key::PageUp,
        key != Key::Char('G') && key != Key::End && key != Key::Home,
        key != Key::Char('l') && key != Key::Right && key != Key::Char('h') && key != Key::Left,
        key == Key::Char('g') || key == Key::Char('e') ==> v.prev_key != Some(Key::Char('g')),
    ensures
        ({
            let (w, action) = after(v, Event::Key(key), counts, height, binds);
            action == Action::Stay && w.page == v.page && w.scroll == v.scroll
        }),
{
    lemma_first_bind(binds, key);
}

/// An arrow or another named key does what its letter does, in each state.
pub proof fn law_named_keys_do_what_letters_do(
    v: ViewerView,
    letter: Key,
    named: Key,
    counts: Seq<int>,
    height: int,
    binds: Seq<Key>,
)
    requires
        ({
            ||| letter == Key::Char('l') && named == Key::Right
            ||| letter == Key::Char('h') && named == Key::Left
            ||| letter == Key::Char('j') && named == Key::Down
            ||| letter == Key::Char('k') && named == Key::Up
            ||| letter == Key::Char('d') && named == Key::PageDown
            ||| letter == Key::Char('u') && named == Key::PageUp
            ||| letter == Key::Char('G') && named == Key::End
            ||| letter == Key::Char('q') && named == Key::Esc
        }),
        !binds.contains(letter),
        !binds.contains(named),
    ensures
        ({
            let (w, a) = after(v, Event::Key(letter), counts, height, binds);
            let (x, b) = after(v, Event::Key(named), counts, height, binds);
            w.page == x.page && w.scroll == x.scroll && a == b
        }),
{
    lemma_first_bind(binds, letter);
    lemma_first_bind(binds, named);
}

/// The key pressed before is the last key that stays unanswered: a key that
/// completes a pair with `g`, and one with a bind, is forgotten.
pub proof fn law_key_is_remembered(
    v: ViewerView,
    event: Event,
    counts: Seq<int>,
    height: int,
    binds: Seq<Key>,
)
    ensures
        ({
            let (w, action) = after(v, event, counts, height, binds);
            match event {
                Event::Key(key) => if binds.contains(key) {
                    w.prev_key is None
                } else if key == Key::Char('q') || key == Key::Esc {
                    action == Action::Quit
                } else if (key == Key::Char('g') || key == Key::Char('e')) && v.prev_key == Some(
                    Key::Char('g'),
                ) {
                    w.prev_key is None
                } else {
                    w.prev_key == Some(key)
                },
                _ => w.prev_key == v.prev_key,
            }
        }),
{
    if let Event::Key(key) = event {
        lemma_first_bind(binds, key);
    }
}

/// A resize moves the page only as far as needed: where the screen is still full,
/// or the page at its top, nothing moves, and else the last line comes to the
/// bottom of the screen. Other events change nothing.
pub proof fn law_resize(v: ViewerView, counts: Seq<int>, height: int, binds: Seq<Key>)
    requires
        0 <= v.scroll,
        0 <= height,
    ensures
        ({
            let len = counts[v.page];
            let (w, action) = after(v, Event::Resize, counts, height, binds);
            &&& action == Action::Stay && w.page == v.page
            &&& v.scroll == 0 || v.scroll + height <= len ==> w.scroll == v.scroll
            &&& v.scroll + height > len && height <= len ==> w.scroll + height == len
            &&& height > len ==> w.scroll == 0
            &&& after(v, Event::Other, counts, height, binds) == (v, Action::Stay)
        }),
{
}

/// What a viewer says is what its fields hold, and the lengths are those of the
/// pages.
pub proof fn law_views_of_the_viewer(v: Viewer, pages: Seq<Page<'_>>)
    ensures
        v@.page == v.page,
        v@.scroll == v.scroll,
        v@.prev_key == v.prev_key,
        line_counts(pages).len() == pages.len(),
        forall|i: int|
            0 <= i < pages.len() ==> #[trigger] line_counts(pages)[i] == pages[i].lines@.len(),
{
}

/// A failure is shown whatever was shown before, stays until a key is pressed, and
/// is gone after that.
pub proof fn law_notice_stays_until_a_key(notice: Option<Seq<char>>, failure: Seq<char>, key: bool)
    ensures
        notice_after(notice, key, Some(failure)) == Some(failure),
        notice_after(notice, false, None) == notice,
        notice_after(notice, true, None) is None,
{
}

} // verus!
