//! The interactive field editor: a keyboard-driven state machine over the
//! form. It has two states — navigating and editing — and moves between
//! them on space, enter and escape; arrow keys move the cursor, which wraps
//! at both ends across section boundaries.

use vstd::prelude::*;
use crate::fields::{
    ConfigKey, ConfigKeyLocation, ConfigKeySection, ConfigKeySlot, ConfigKeyType, key_wf,
    sections_wf,
};
use crate::settings::Config;
use crate::numbers::{u8_digits, number_value, parse_number, fmt_u8};

verus! {

/// Whether the form has at least one section and no empty section, so that
/// a cursor position always exists.
pub open spec fn sections_nonempty(ss: Seq<ConfigKeySection>) -> bool {
    &&& 1 <= ss.len() <= usize::MAX
    &&& forall|i: int| 0 <= i < ss.len() ==> 1 <= #[trigger] ss[i].keys@.len() <= usize::MAX
}

/// Whether a cursor position points at a key of the form.
pub open spec fn loc_valid(ss: Seq<ConfigKeySection>, loc: ConfigKeyLocation) -> bool {
    loc.section < ss.len() && loc.key < ss[loc.section as int].keys@.len()
}

/// The key under a cursor position.
pub open spec fn key_at(ss: Seq<ConfigKeySection>, loc: ConfigKeyLocation) -> ConfigKey {
    ss[loc.section as int].keys@[loc.key as int]
}

/// Whether the key under the cursor can be edited (text or number; buttons
/// only trigger).
pub open spec fn editable(ss: Seq<ConfigKeySection>, loc: ConfigKeyLocation) -> bool {
    key_at(ss, loc).key_type == ConfigKeyType::Text || key_at(ss, loc).key_type
        == ConfigKeyType::Number
}

/// Keys in the sections before section `i`.
pub open spec fn keys_before(ss: Seq<ConfigKeySection>, i: int) -> int
    decreases i,
{
    if i <= 0 {
        0
    } else {
        keys_before(ss, i - 1) + ss[i - 1].keys@.len() as int
    }
}

/// All keys of the form.
pub open spec fn total_keys(ss: Seq<ConfigKeySection>) -> int {
    keys_before(ss, ss.len() as int)
}

/// A cursor position's rank in document order.
pub open spec fn flat_index(ss: Seq<ConfigKeySection>, loc: ConfigKeyLocation) -> int {
    keys_before(ss, loc.section as int) + loc.key
}

/// The position after a cursor position, wrapping from the last key of the
/// last section to the first key of the first section.
pub open spec fn down_spec(ss: Seq<ConfigKeySection>, loc: ConfigKeyLocation) -> ConfigKeyLocation {
    if loc.key + 1 < ss[loc.section as int].keys@.len() {
        ConfigKeyLocation { section: loc.section, key: (loc.key + 1) as usize }
    } else if loc.section + 1 < ss.len() {
        ConfigKeyLocation { section: (loc.section + 1) as usize, key: 0 }
    } else {
        ConfigKeyLocation { section: 0, key: 0 }
    }
}

/// The position before a cursor position, wrapping from the first key of
/// the first section to the last key of the last section.
pub open spec fn up_spec(ss: Seq<ConfigKeySection>, loc: ConfigKeyLocation) -> ConfigKeyLocation {
    if loc.key > 0 {
        ConfigKeyLocation { section: loc.section, key: (loc.key - 1) as usize }
    } else {
        let s2 = if loc.section > 0 {
            (loc.section - 1) as usize
        } else {
            (ss.len() - 1) as usize
        };
        ConfigKeyLocation { section: s2, key: (ss[s2 as int].keys@.len() - 1) as usize }
    }
}

/// Earlier prefixes never count more keys.
pub proof fn lemma_keys_before_mono(ss: Seq<ConfigKeySection>, i: int, j: int)
    requires
        0 <= i <= j,
    ensures
        keys_before(ss, i) <= keys_before(ss, j),
    decreases j - i,
{
    if i < j {
        lemma_keys_before_mono(ss, i, j - 1);
    }
}

/// A valid cursor position's rank lies inside the form.
pub proof fn lemma_flat_bounds(ss: Seq<ConfigKeySection>, loc: ConfigKeyLocation)
    requires
        sections_nonempty(ss),
        loc_valid(ss, loc),
    ensures
        0 <= flat_index(ss, loc) < total_keys(ss),
{
    lemma_keys_before_mono(ss, 0, loc.section as int);
    assert(keys_before(ss, loc.section as int + 1) == keys_before(ss, loc.section as int)
        + ss[loc.section as int].keys@.len());
    lemma_keys_before_mono(ss, loc.section as int + 1, ss.len() as int);
}

/// Two valid cursor positions with the same rank are the same position.
pub proof fn lemma_flat_injective(
    ss: Seq<ConfigKeySection>,
    l1: ConfigKeyLocation,
    l2: ConfigKeyLocation,
)
    requires
        loc_valid(ss, l1),
        loc_valid(ss, l2),
        flat_index(ss, l1) == flat_index(ss, l2),
    ensures
        l1 == l2,
{
    if l1.section < l2.section {
        assert(keys_before(ss, l1.section as int + 1) == keys_before(ss, l1.section as int)
            + ss[l1.section as int].keys@.len());
        lemma_keys_before_mono(ss, l1.section as int + 1, l2.section as int);
    } else if l2.section < l1.section {
        assert(keys_before(ss, l2.section as int + 1) == keys_before(ss, l2.section as int)
            + ss[l2.section as int].keys@.len());
        lemma_keys_before_mono(ss, l2.section as int + 1, l1.section as int);
    }
}

/// Moving down steps the rank forward by one, wrapping to zero past the
/// last key.
pub proof fn lemma_down_flat(ss: Seq<ConfigKeySection>, loc: ConfigKeyLocation)
    requires
        sections_nonempty(ss),
        loc_valid(ss, loc),
    ensures
        loc_valid(ss, down_spec(ss, loc)),
        flat_index(ss, down_spec(ss, loc)) == (if flat_index(ss, loc) + 1 < total_keys(ss) {
            flat_index(ss, loc) + 1
        } else {
            0
        }),
        flat_index(ss, loc) + 1 <= total_keys(ss),
{
    let s = loc.section as int;
    lemma_flat_bounds(ss, loc);
    lemma_keys_before_mono(ss, 0, s);
    assert(keys_before(ss, s + 1) == keys_before(ss, s) + ss[s].keys@.len());
    if loc.key + 1 < ss[s].keys@.len() {
        lemma_keys_before_mono(ss, s + 1, ss.len() as int);
        assert(flat_index(ss, loc) + 1 < total_keys(ss));
    } else if loc.section + 1 < ss.len() {
        assert(keys_before(ss, s + 2) == keys_before(ss, s + 1) + ss[s + 1].keys@.len());
        assert(ss[s + 1].keys@.len() >= 1);
        lemma_keys_before_mono(ss, s + 2, ss.len() as int);
        assert(flat_index(ss, down_spec(ss, loc)) == keys_before(ss, s + 1));
        assert(flat_index(ss, loc) + 1 < total_keys(ss));
    } else {
        assert(flat_index(ss, loc) + 1 == total_keys(ss));
        assert(ss[0].keys@.len() >= 1);
        assert(flat_index(ss, down_spec(ss, loc)) == 0);
    }
}

/// Moving up steps the rank back by one, wrapping to the last key past the
/// first.
pub proof fn lemma_up_flat(ss: Seq<ConfigKeySection>, loc: ConfigKeyLocation)
    requires
        sections_nonempty(ss),
        loc_valid(ss, loc),
    ensures
        loc_valid(ss, up_spec(ss, loc)),
        flat_index(ss, up_spec(ss, loc)) == (if flat_index(ss, loc) > 0 {
            flat_index(ss, loc) - 1
        } else {
            total_keys(ss) - 1
        }),
{
    lemma_flat_bounds(ss, loc);
    lemma_keys_before_mono(ss, 0, loc.section as int);
    if loc.key > 0 {
        assert(flat_index(ss, loc) > 0);
    } else {
        if loc.section > 0 {
            let s2 = loc.section as int - 1;
            assert(keys_before(ss, s2 + 1) == keys_before(ss, s2) + ss[s2].keys@.len());
            assert(ss[s2].keys@.len() >= 1);
            assert(keys_before(ss, 1) == keys_before(ss, 0) + ss[0].keys@.len());
            assert(ss[0].keys@.len() >= 1);
            lemma_keys_before_mono(ss, 1, loc.section as int);
            assert(flat_index(ss, loc) > 0);
        } else {
            let s2 = ss.len() as int - 1;
            assert(keys_before(ss, s2 + 1) == keys_before(ss, s2) + ss[s2].keys@.len());
            assert(ss[s2].keys@.len() >= 1);
            assert(flat_index(ss, loc) == 0);
        }
    }
}

/// The cursor position after pressing down `n` times.
pub open spec fn down_iter(ss: Seq<ConfigKeySection>, loc: ConfigKeyLocation, n: nat) -> ConfigKeyLocation
    decreases n,
{
    if n == 0 {
        loc
    } else {
        down_iter(ss, down_spec(ss, loc), (n - 1) as nat)
    }
}

/// The cursor position after pressing up `n` times.
pub open spec fn up_iter(ss: Seq<ConfigKeySection>, loc: ConfigKeyLocation, n: nat) -> ConfigKeyLocation
    decreases n,
{
    if n == 0 {
        loc
    } else {
        up_iter(ss, up_spec(ss, loc), (n - 1) as nat)
    }
}

/// Iterating down splits over a sum of step counts.
proof fn lemma_down_iter_add(ss: Seq<ConfigKeySection>, loc: ConfigKeyLocation, a: nat, b: nat)
    ensures
        down_iter(ss, loc, a + b) == down_iter(ss, down_iter(ss, loc, a), b),
    decreases a,
{
    if a > 0 {
        lemma_down_iter_add(ss, down_spec(ss, loc), (a - 1) as nat, b);
    }
}

/// Iterating up splits over a sum of step counts.
proof fn lemma_up_iter_add(ss: Seq<ConfigKeySection>, loc: ConfigKeyLocation, a: nat, b: nat)
    ensures
        up_iter(ss, loc, a + b) == up_iter(ss, up_iter(ss, loc, a), b),
    decreases a,
{
    if a > 0 {
        lemma_up_iter_add(ss, up_spec(ss, loc), (a - 1) as nat, b);
    }
}

/// While no wrap happens, iterating down adds the step count to the rank.
proof fn lemma_down_iter_adds(ss: Seq<ConfigKeySection>, loc: ConfigKeyLocation, n: nat)
    requires
        sections_nonempty(ss),
        loc_valid(ss, loc),
        flat_index(ss, loc) + n < total_keys(ss),
    ensures
        loc_valid(ss, down_iter(ss, loc, n)),
        flat_index(ss, down_iter(ss, loc, n)) == flat_index(ss, loc) + n,
    decreases n,
{
    if n > 0 {
        lemma_down_flat(ss, loc);
        lemma_down_iter_adds(ss, down_spec(ss, loc), (n - 1) as nat);
    }
}

/// While no wrap happens, iterating up subtracts the step count from the
/// rank.
proof fn lemma_up_iter_subs(ss: Seq<ConfigKeySection>, loc: ConfigKeyLocation, n: nat)
    requires
        sections_nonempty(ss),
        loc_valid(ss, loc),
        n <= flat_index(ss, loc),
    ensures
        loc_valid(ss, up_iter(ss, loc, n)),
        flat_index(ss, up_iter(ss, loc, n)) == flat_index(ss, loc) - n,
    decreases n,
{
    if n > 0 {
        lemma_up_flat(ss, loc);
        lemma_up_iter_subs(ss, up_spec(ss, loc), (n - 1) as nat);
    }
}

/// Cursor navigation is cyclic: pressing down exactly as many times as the
/// form has keys returns the cursor to where it started.
pub proof fn lemma_down_cycle(ss: Seq<ConfigKeySection>, loc: ConfigKeyLocation)
    requires
        sections_nonempty(ss),
        loc_valid(ss, loc),
    ensures
        down_iter(ss, loc, total_keys(ss) as nat) == loc,
{
    let total = total_keys(ss);
    let f = flat_index(ss, loc);
    lemma_flat_bounds(ss, loc);
    let a = (total - 1 - f) as nat;
    lemma_down_iter_adds(ss, loc, a);
    let l1 = down_iter(ss, loc, a);
    lemma_down_flat(ss, l1);
    let l2 = down_spec(ss, l1);
    assert(flat_index(ss, l2) == 0);
    lemma_down_iter_adds(ss, l2, f as nat);
    let l3 = down_iter(ss, l2, f as nat);
    lemma_down_iter_add(ss, loc, a, (1 + f) as nat);
    lemma_down_iter_add(ss, l1, 1, f as nat);
    assert(down_iter(ss, l1, 1) == down_iter(ss, l2, 0));
    assert(down_iter(ss, l1, 1) == l2);
    assert(down_iter(ss, loc, total as nat) == l3);
    lemma_flat_injective(ss, l3, loc);
}

/// Cursor navigation is cyclic upward as well: pressing up exactly as many
/// times as the form has keys returns the cursor to where it started.
pub proof fn lemma_up_cycle(ss: Seq<ConfigKeySection>, loc: ConfigKeyLocation)
    requires
        sections_nonempty(ss),
        loc_valid(ss, loc),
    ensures
        up_iter(ss, loc, total_keys(ss) as nat) == loc,
{
    let total = total_keys(ss);
    let f = flat_index(ss, loc);
    lemma_flat_bounds(ss, loc);
    lemma_up_iter_subs(ss, loc, f as nat);
    let l1 = up_iter(ss, loc, f as nat);
    lemma_up_flat(ss, l1);
    let l2 = up_spec(ss, l1);
    assert(flat_index(ss, l2) == total - 1);
    let b = (total - 1 - f) as nat;
    lemma_up_iter_subs(ss, l2, b);
    let l3 = up_iter(ss, l2, b);
    assert(flat_index(ss, l3) == f);
    lemma_up_iter_add(ss, loc, f as nat, (1 + b) as nat);
    lemma_up_iter_add(ss, l1, 1, b);
    assert(up_iter(ss, l1, 1) == up_iter(ss, l2, 0));
    assert(up_iter(ss, l1, 1) == l2);
    assert(up_iter(ss, loc, total as nat) == l3);
    lemma_flat_injective(ss, l3, loc);
}

/// Move the cursor to the next key, wrapping across section boundaries.
pub fn cursor_down(sections: &Vec<ConfigKeySection>, loc: ConfigKeyLocation) -> (r: ConfigKeyLocation)
    requires
        sections_nonempty(sections@),
        loc_valid(sections@, loc),
    ensures
        r == down_spec(sections@, loc),
        loc_valid(sections@, r),
{
    proof {
        lemma_down_flat(sections@, loc);
    }
    let n = sections.len();
    let len = sections[loc.section].keys.len();
    if loc.key + 1 < len {
        ConfigKeyLocation { section: loc.section, key: loc.key + 1 }
    } else if loc.section + 1 < n {
        ConfigKeyLocation { section: loc.section + 1, key: 0 }
    } else {
        ConfigKeyLocation { section: 0, key: 0 }
    }
}

/// Move the cursor to the previous key, wrapping across section boundaries.
pub fn cursor_up(sections: &Vec<ConfigKeySection>, loc: ConfigKeyLocation) -> (r: ConfigKeyLocation)
    requires
        sections_nonempty(sections@),
        loc_valid(sections@, loc),
    ensures
        r == up_spec(sections@, loc),
        loc_valid(sections@, r),
{
    proof {
        lemma_up_flat(sections@, loc);
    }
    if loc.key > 0 {
        ConfigKeyLocation { section: loc.section, key: loc.key - 1 }
    } else {
        let s2 = if loc.section > 0 {
            loc.section - 1
        } else {
            sections.len() - 1
        };
        ConfigKeyLocation { section: s2, key: sections[s2].keys.len() - 1 }
    }
}

/// Whether a slot's document group is present, so the slot can be read and
/// written.
pub open spec fn slot_wf(slot: ConfigKeySlot, c: Config) -> bool {
    match slot {
        ConfigKeySlot::InputName => true,
        ConfigKeySlot::DisplayName => c.display matches Some(d) && d.display is Some,
        ConfigKeySlot::DisplayScreen => c.display is Some,
    }
}

/// The current value of a slot, stringified: text slots as their raw
/// characters, the number slot as its base-ten digits.
pub open spec fn slot_value_str(c: Config, slot: ConfigKeySlot) -> Seq<char> {
    match slot {
        ConfigKeySlot::InputName => c.input.name@,
        ConfigKeySlot::DisplayName => match c.display {
            Some(d) => match d.display {
                Some(s) => s@,
                None => Seq::empty(),
            },
            None => Seq::empty(),
        },
        ConfigKeySlot::DisplayScreen => match c.display {
            Some(d) => u8_digits(d.screen),
            None => Seq::empty(),
        },
    }
}

/// Read a slot's current value as characters, for seeding an edit buffer.
pub fn slot_value_chars(conf: &Config, slot: ConfigKeySlot) -> (r: Vec<char>)
    requires
        slot_wf(slot, *conf),
    ensures
        r@ == slot_value_str(*conf, slot),
{
    match slot {
        ConfigKeySlot::InputName => crate::markup::str_to_chars(conf.input.name.as_str()),
        ConfigKeySlot::DisplayName => match &conf.display {
            Some(d) => match &d.display {
                Some(s) => crate::markup::str_to_chars(s.as_str()),
                None => {
                    proof {
                        assert(false);
                    }
                    Vec::new()
                },
            },
            None => {
                proof {
                    assert(false);
                }
                Vec::new()
            },
        },
        ConfigKeySlot::DisplayScreen => match &conf.display {
            Some(d) => fmt_u8(d.screen),
            None => {
                proof {
                    assert(false);
                }
                Vec::new()
            },
        },
    }
}

/// What a text commit does to the document: the addressed slot holds the
/// buffer verbatim, with no re-escaping, and every other slot keeps its
/// value.
pub open spec fn text_committed(pre: Config, post: Config, slot: ConfigKeySlot, v: Seq<char>) -> bool {
    match slot {
        ConfigKeySlot::InputName => post.input.name@ == v && post.display == pre.display,
        ConfigKeySlot::DisplayName => post.input == pre.input && match (pre.display, post.display) {
            (Some(dp), Some(dq)) => dq.screen == dp.screen && (dq.display matches Some(s) && s@
                == v),
            _ => false,
        },
        ConfigKeySlot::DisplayScreen => false,
    }
}

/// What a number commit does to the document: the screen slot holds the
/// parsed value and every other slot keeps its value.
pub open spec fn number_committed(pre: Config, post: Config, v: u8) -> bool {
    post.input == pre.input && match (pre.display, post.display) {
        (Some(dp), Some(dq)) => dq.display == dp.display && dq.screen == v,
        _ => false,
    }
}

/// Write an edit buffer into a text slot, verbatim.
fn commit_text(conf: &mut Config, slot: ConfigKeySlot, buf: &Vec<char>)
    requires
        slot_wf(slot, *old(conf)),
        slot != ConfigKeySlot::DisplayScreen,
    ensures
        text_committed(*old(conf), *final(conf), slot, buf@),
{
    match slot {
        ConfigKeySlot::InputName => {
            conf.input.name = crate::markup::chars_to_string(buf);
        },
        ConfigKeySlot::DisplayName => {
            match &mut conf.display {
                Some(d) => {
                    d.display = Some(crate::markup::chars_to_string(buf));
                },
                None => {
                    proof {
                        assert(false);
                    }
                },
            }
        },
        ConfigKeySlot::DisplayScreen => {
            proof {
                assert(false);
            }
        },
    }
}

/// Write a parsed value into the screen slot.
fn commit_number(conf: &mut Config, v: u8)
    requires
        old(conf).display is Some,
    ensures
        number_committed(*old(conf), *final(conf), v),
{
    match &mut conf.display {
        Some(d) => {
            d.screen = v;
        },
        None => {
            proof {
                assert(false);
            }
        },
    }
}

/// One key event handed to the editor.
#[derive(Debug, Clone, Copy, PartialEq, Eq, Structural)]
pub enum KeyEvent {
    Up,
    Down,
    Enter,
    Escape,
    Backspace,
    Space,
    Printable(char),
    Other,
}

/// What the surrounding session must do after a step.
#[derive(Debug, Clone, Copy, PartialEq, Eq, Structural)]
pub enum StepAction {
    /// Redraw and wait for the next key.
    Continue,
    /// The session ends; commit the document as it stands.
    Exit,
    /// Fire the trigger collaborator for the current button.
    Trigger,
    /// A number commit was rejected; stay editing and surface the error.
    Reject,
}

/// The editor's mutable state: the cursor, whether an edit is in progress,
/// and the in-progress edit buffer.
pub struct EditorState {
    /// The current cursor position.
    pub cur: ConfigKeyLocation,
    /// Whether an edit is in progress.
    pub editing: bool,
    /// The in-progress text, seeded from the field's value on entering an
    /// edit and discarded on cancel.
    pub buf: Vec<char>,
}

impl EditorState {
    /// The editor as a session starts: cursor on the first key, navigating.
    pub fn new() -> (st: EditorState)
        ensures
            st.cur == (ConfigKeyLocation { section: 0, key: 0 }),
            !st.editing,
            st.buf@ == Seq::<char>::empty(),
    {
        EditorState {
            cur: ConfigKeyLocation { section: 0, key: 0 },
            editing: false,
            buf: Vec::new(),
        }
    }
}

/// Whether two editor states agree on cursor, mode and buffer.
pub open spec fn st_same(a: EditorState, b: EditorState) -> bool {
    b.cur == a.cur && b.editing == a.editing && b.buf@ == a.buf@
}

/// The editor's transition relation: what one key event does to the state,
/// the document, and the surrounding session.
pub open spec fn step_post(
    ss: Seq<ConfigKeySection>,
    pre_st: EditorState,
    pre_c: Config,
    key: KeyEvent,
    st2: EditorState,
    c2: Config,
    act: StepAction,
) -> bool {
    match key {
        KeyEvent::Escape => st2.cur == pre_st.cur && !st2.editing && st2.buf@ == pre_st.buf@ && c2
            == pre_c && act == StepAction::Continue,
        KeyEvent::Enter => if !pre_st.editing {
            st_same(pre_st, st2) && c2 == pre_c && act == StepAction::Exit
        } else {
            if key_at(ss, pre_st.cur).key_type == ConfigKeyType::Text {
                &&& key_at(ss, pre_st.cur).slot matches Some(slot) && text_committed(
                    pre_c,
                    c2,
                    slot,
                    pre_st.buf@,
                )
                &&& st2.cur == pre_st.cur && !st2.editing && st2.buf@ == pre_st.buf@
                &&& act == StepAction::Continue
            } else {
                match number_value(pre_st.buf@) {
                    Some(v) => number_committed(pre_c, c2, v) && st2.cur == pre_st.cur
                        && !st2.editing && st2.buf@ == pre_st.buf@ && act == StepAction::Continue,
                    None => st_same(pre_st, st2) && c2 == pre_c && act == StepAction::Reject,
                }
            }
        },
        KeyEvent::Space => if pre_st.editing {
            st2.cur == pre_st.cur && st2.editing && st2.buf@ == pre_st.buf@.push(' ') && c2 == pre_c
                && act == StepAction::Continue
        } else if key_at(ss, pre_st.cur).key_type == ConfigKeyType::Button {
            st_same(pre_st, st2) && c2 == pre_c && act == StepAction::Trigger
        } else {
            &&& key_at(ss, pre_st.cur).slot matches Some(slot) && st2.buf@ == slot_value_str(
                pre_c,
                slot,
            )
            &&& st2.cur == pre_st.cur && st2.editing
            &&& c2 == pre_c && act == StepAction::Continue
        },
        KeyEvent::Up => if pre_st.editing {
            st_same(pre_st, st2) && c2 == pre_c && act == StepAction::Continue
        } else {
            st2.cur == up_spec(ss, pre_st.cur) && !st2.editing && st2.buf@ == pre_st.buf@ && c2
                == pre_c && act == StepAction::Continue
        },
        KeyEvent::Down => if pre_st.editing {
            st_same(pre_st, st2) && c2 == pre_c && act == StepAction::Continue
        } else {
            st2.cur == down_spec(ss, pre_st.cur) && !st2.editing && st2.buf@ == pre_st.buf@ && c2
                == pre_c && act == StepAction::Continue
        },
        KeyEvent::Backspace => st2.cur == pre_st.cur && st2.editing == pre_st.editing && st2.buf@
            == (if pre_st.buf@.len() > 0 {
            pre_st.buf@.drop_last()
        } else {
            pre_st.buf@
        }) && c2 == pre_c && act == StepAction::Continue,
        KeyEvent::Printable(ch) => st2.cur == pre_st.cur && st2.editing == pre_st.editing
            && st2.buf@ == pre_st.buf@.push(ch) && c2 == pre_c && act == StepAction::Continue,
        KeyEvent::Other => st_same(pre_st, st2) && c2 == pre_c && act == StepAction::Continue,
    }
}

/// One step of the editor state machine: reads one key event, updates the
/// editor state and the document, and says what the session must do next.
/// Navigation wraps; space starts an edit seeded from the current value or
/// fires a button's trigger; enter commits an edit or ends the session; a
/// number commit with no digits, or one past the field's range, is rejected
/// and the editor stays in the edit.
pub fn editor_step(
    st: &mut EditorState,
    sections: &Vec<ConfigKeySection>,
    conf: &mut Config,
    key: KeyEvent,
) -> (act: StepAction)
    requires
        sections_wf(sections@, *old(conf)),
        loc_valid(sections@, old(st).cur),
        old(st).editing ==> editable(sections@, old(st).cur),
    ensures
        step_post(sections@, *old(st), *old(conf), key, *final(st), *final(conf), act),
        sections_wf(sections@, *final(conf)),
        loc_valid(sections@, final(st).cur),
        final(st).editing ==> editable(sections@, final(st).cur),
{
    match key {
        KeyEvent::Escape => {
            st.editing = false;
            StepAction::Continue
        },
        KeyEvent::Enter => {
            if !st.editing {
                StepAction::Exit
            } else {
                let k = &sections[st.cur.section].keys[st.cur.key];
                proof {
                    assert(key_wf(sections@[st.cur.section as int].keys@[st.cur.key as int],
                        *conf));
                }
                match k.slot {
                    Some(slot) => {
                        if k.key_type == ConfigKeyType::Text {
                            commit_text(conf, slot, &st.buf);
                            st.editing = false;
                            proof {
                                assert(sections_wf(sections@, *conf));
                            }
                            StepAction::Continue
                        } else {
                            proof {
                                assert(slot == ConfigKeySlot::DisplayScreen);
                            }
                            match parse_number(&st.buf) {
                                Some(v) => {
                                    commit_number(conf, v);
                                    st.editing = false;
                                    proof {
                                        assert(sections_wf(sections@, *conf));
                                    }
                                    StepAction::Continue
                                },
                                None => StepAction::Reject,
                            }
                        }
                    },
                    None => {
                        proof {
                            assert(false);
                        }
                        StepAction::Continue
                    },
                }
            }
        },
        KeyEvent::Space => {
            if st.editing {
                st.buf.push(' ');
                StepAction::Continue
            } else {
                let k = &sections[st.cur.section].keys[st.cur.key];
                proof {
                    assert(key_wf(sections@[st.cur.section as int].keys@[st.cur.key as int],
                        *conf));
                }
                if k.key_type == ConfigKeyType::Button {
                    StepAction::Trigger
                } else {
                    match k.slot {
                        Some(slot) => {
                            st.buf = slot_value_chars(conf, slot);
                            st.editing = true;
                        },
                        None => {
                            proof {
                                assert(false);
                            }
                        },
                    }
                    StepAction::Continue
                }
            }
        },
        KeyEvent::Up => {
            if !st.editing {
                st.cur = cursor_up(sections, st.cur);
            }
            StepAction::Continue
        },
        KeyEvent::Down => {
            if !st.editing {
                st.cur = cursor_down(sections, st.cur);
            }
            StepAction::Continue
        },
        KeyEvent::Backspace => {
            if st.buf.len() > 0 {
                st.buf.pop();
                proof {
                    assert(st.buf@ =~= old(st).buf@.drop_last());
                }
            }
            StepAction::Continue
        },
        KeyEvent::Printable(ch) => {
            st.buf.push(ch);
            StepAction::Continue
        },
        KeyEvent::Other => StepAction::Continue,
    }
}

} // verus!
