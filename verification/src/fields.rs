//! The field model: the typed, navigable form built from the settings
//! document — sections of fields, each field carrying its kind, a path to
//! its document slot, a display name and a display row.
//!
//! Fields address their document slot by path rather than by reference, so
//! the document stays the single owner: a commit looks the live slot up by
//! path at commit time.

use vstd::prelude::*;
use crate::settings::Config;

verus! {

/// The behaviour of a config key: a trigger button, free text, or a bounded
/// small integer.
#[derive(Debug, Clone, Copy, PartialEq, Eq, Structural)]
pub enum ConfigKeyType {
    Button,
    Text,
    Number,
}

/// The path to the document slot a key edits.
#[derive(Debug, Clone, Copy, PartialEq, Eq, Structural)]
pub enum ConfigKeySlot {
    /// The input group's device name.
    InputName,
    /// The display group's display target.
    DisplayName,
    /// The display group's screen number.
    DisplayScreen,
}

/// One editable or triggerable unit in the configuration form.
pub struct ConfigKey {
    /// How the key behaves.
    pub key_type: ConfigKeyType,
    /// The slot the key edits; buttons edit none.
    pub slot: Option<ConfigKeySlot>,
    /// The display name.
    pub name: Vec<char>,
    /// The display row, assigned during layout; negative until assigned.
    pub ypos: i32,
}

/// A display name together with its ordered keys.
pub struct ConfigKeySection {
    /// The section's display name.
    pub name: Vec<char>,
    /// The section's keys, in display order.
    pub keys: Vec<ConfigKey>,
}

/// The cursor: a section index and a key index within that section.
#[derive(Debug, Clone, Copy, PartialEq, Eq, Structural)]
pub struct ConfigKeyLocation {
    pub section: usize,
    pub key: usize,
}

impl ConfigKey {
    /// The column where the key's value display starts: the key's row reads
    /// ` => name = ` before the value.
    pub fn val_xpos(&self) -> (r: i32)
        requires
            self.name@.len() + 7 <= i32::MAX,
        ensures
            r == self.name@.len() + 7,
    {
        (self.name.len() + 7) as i32
    }
}

/// Whether one key is consistent with the document: buttons have no slot,
/// text and number keys have a slot of the matching kind, and a slot's
/// group is present in the document.
pub open spec fn key_wf(k: ConfigKey, c: Config) -> bool {
    match k.slot {
        None => k.key_type == ConfigKeyType::Button,
        Some(ConfigKeySlot::InputName) => k.key_type == ConfigKeyType::Text,
        Some(ConfigKeySlot::DisplayName) => k.key_type == ConfigKeyType::Text && (c.display
            matches Some(d) && d.display is Some),
        Some(ConfigKeySlot::DisplayScreen) => k.key_type == ConfigKeyType::Number
            && c.display is Some,
    }
}

/// Whether the whole form is consistent with the document: at least one
/// section, no empty section, every key consistent.
pub open spec fn sections_wf(ss: Seq<ConfigKeySection>, c: Config) -> bool {
    &&& 1 <= ss.len() <= usize::MAX
    &&& forall|i: int| 0 <= i < ss.len() ==> 1 <= #[trigger] ss[i].keys@.len() <= usize::MAX
    &&& forall|i: int, j: int|
        0 <= i < ss.len() && 0 <= j < ss[i].keys@.len() ==> key_wf(#[trigger] ss[i].keys@[j], c)
}

/// Copy a character vector.
pub(crate) fn clone_chars(v: &Vec<char>) -> (r: Vec<char>)
    ensures
        r@ == v@,
{
    let r = v.clone();
    proof {
        assert forall|i: int| 0 <= i < v@.len() implies v@[i] == r@[i] by {
            assert(cloned(v@[i], r@[i]));
        }
        assert(v@ =~= r@);
    }
    r
}

/// Build the form from the document: an input section with the trigger
/// button and the device name, and — when the document carries a display
/// group — a display section with its own trigger button, the display
/// target when one is set, and the screen number. Rows are unassigned.
pub fn build_sections(conf: &Config) -> (ss: Vec<ConfigKeySection>)
    ensures
        sections_wf(ss@, *conf),
        ss@.len() == (if conf.display is Some {
            2int
        } else {
            1int
        }),
        ss@[0].name@ == "Input"@,
        ss@[0].keys@.len() == 2,
        ss@[0].keys@[0].key_type == ConfigKeyType::Button,
        ss@[0].keys@[0].slot is None,
        ss@[0].keys@[0].name@ == "Automatic Setup"@,
        ss@[0].keys@[1].key_type == ConfigKeyType::Text,
        ss@[0].keys@[1].slot == Some(ConfigKeySlot::InputName),
        ss@[0].keys@[1].name@ == "Name"@,
        conf.display matches Some(d) ==> {
            &&& ss@[1].name@ == "Display"@
            &&& ss@[1].keys@[0].key_type == ConfigKeyType::Button
            &&& ss@[1].keys@[0].slot is None
            &&& ss@[1].keys@[0].name@ == "Automatic Setup"@
            &&& (d.display is Some ==> {
                &&& ss@[1].keys@.len() == 3
                &&& ss@[1].keys@[1].key_type == ConfigKeyType::Text
                &&& ss@[1].keys@[1].slot == Some(ConfigKeySlot::DisplayName)
                &&& ss@[1].keys@[1].name@ == "Display"@
            })
            &&& (d.display is None ==> ss@[1].keys@.len() == 2)
            &&& {
                let last = ss@[1].keys@[ss@[1].keys@.len() - 1];
                &&& last.key_type == ConfigKeyType::Number
                &&& last.slot == Some(ConfigKeySlot::DisplayScreen)
                &&& last.name@ == "Screen"@
            }
        },
        forall|i: int, j: int|
            0 <= i < ss@.len() && 0 <= j < ss@[i].keys@.len() ==> (#[trigger] ss@[i].keys@[j]).ypos
                == -1,
{
    let mut input_keys: Vec<ConfigKey> = Vec::new();
    input_keys.push(
        ConfigKey {
            key_type: ConfigKeyType::Button,
            slot: None,
            name: crate::markup::str_to_chars("Automatic Setup"),
            ypos: -1,
        },
    );
    input_keys.push(
        ConfigKey {
            key_type: ConfigKeyType::Text,
            slot: Some(ConfigKeySlot::InputName),
            name: crate::markup::str_to_chars("Name"),
            ypos: -1,
        },
    );
    let mut ss: Vec<ConfigKeySection> = Vec::new();
    ss.push(ConfigKeySection { name: crate::markup::str_to_chars("Input"), keys: input_keys });
    match &conf.display {
        Some(d) => {
            let mut display_keys: Vec<ConfigKey> = Vec::new();
            display_keys.push(
                ConfigKey {
                    key_type: ConfigKeyType::Button,
                    slot: None,
                    name: crate::markup::str_to_chars("Automatic Setup"),
                    ypos: -1,
                },
            );
            if d.display.is_some() {
                display_keys.push(
                    ConfigKey {
                        key_type: ConfigKeyType::Text,
                        slot: Some(ConfigKeySlot::DisplayName),
                        name: crate::markup::str_to_chars("Display"),
                        ypos: -1,
                    },
                );
            }
            display_keys.push(
                ConfigKey {
                    key_type: ConfigKeyType::Number,
                    slot: Some(ConfigKeySlot::DisplayScreen),
                    name: crate::markup::str_to_chars("Screen"),
                    ypos: -1,
                },
            );
            ss.push(
                ConfigKeySection { name: crate::markup::str_to_chars("Display"), keys: display_keys },
            );
        },
        None => {},
    }
    ss
}

/// Rows taken by one section: a blank row, the header row, one row per key.
pub open spec fn section_rows(s: ConfigKeySection) -> int {
    2 + s.keys@.len() as int
}

/// The first row of section `i`: the title row, then every earlier section.
pub open spec fn rows_before(ss: Seq<ConfigKeySection>, i: int) -> int
    decreases i,
{
    if i <= 0 {
        1
    } else {
        rows_before(ss, i - 1) + section_rows(ss[i - 1])
    }
}

/// The display row of key `ki` of section `si`: the section's blank and
/// header rows, then the keys in order.
pub open spec fn row_of(ss: Seq<ConfigKeySection>, si: int, ki: int) -> int {
    rows_before(ss, si) + 2 + ki
}

/// The given key, with its row assigned and everything else kept.
pub open spec fn key_with_row(k: ConfigKey, k2: ConfigKey, row: int) -> bool {
    &&& k2.key_type == k.key_type
    &&& k2.slot == k.slot
    &&& k2.name@ == k.name@
    &&& k2.ypos == row
}

/// Earlier sections never start later.
pub proof fn lemma_rows_before_mono(ss: Seq<ConfigKeySection>, i: int, j: int)
    requires
        0 <= i <= j,
    ensures
        rows_before(ss, i) <= rows_before(ss, j),
    decreases j - i,
{
    if i < j {
        lemma_rows_before_mono(ss, i, j - 1);
    }
}

/// Assign each key its display row, in document order: section header rows
/// and blank spacing rows consume one row each, key rows one each. Row
/// assignment is pure with respect to every other field.
pub fn assign_rows(ss: &Vec<ConfigKeySection>) -> (out: Vec<ConfigKeySection>)
    requires
        rows_before(ss@, ss@.len() as int) <= i32::MAX,
    ensures
        out@.len() == ss@.len(),
        forall|si: int|
            0 <= si < ss@.len() ==> (#[trigger] out@[si]).name@ == ss@[si].name@
                && out@[si].keys@.len() == ss@[si].keys@.len(),
        forall|si: int, ki: int|
            0 <= si < ss@.len() && 0 <= ki < ss@[si].keys@.len() ==> key_with_row(
                ss@[si].keys@[ki],
                #[trigger] out@[si].keys@[ki],
                row_of(ss@, si, ki),
            ),
{
    let mut out: Vec<ConfigKeySection> = Vec::new();
    let mut line_buf: i32 = 1;
    let mut si: usize = 0;
    while si < ss.len()
        invariant
            si <= ss.len(),
            rows_before(ss@, ss@.len() as int) <= i32::MAX,
            line_buf == rows_before(ss@, si as int),
            out@.len() == si,
            forall|i: int|
                0 <= i < si ==> (#[trigger] out@[i]).name@ == ss@[i].name@ && out@[i].keys@.len()
                    == ss@[i].keys@.len(),
            forall|i: int, j: int|
                0 <= i < si && 0 <= j < ss@[i].keys@.len() ==> key_with_row(
                    ss@[i].keys@[j],
                    #[trigger] out@[i].keys@[j],
                    row_of(ss@, i, j),
                ),
        decreases ss.len() - si,
    {
        let sec = &ss[si];
        proof {
            lemma_rows_before_mono(ss@, si as int + 1, ss@.len() as int);
            assert(rows_before(ss@, si as int + 1) == line_buf + 2 + sec.keys@.len());
        }
        line_buf = line_buf + 2;
        let mut keys: Vec<ConfigKey> = Vec::new();
        let mut ki: usize = 0;
        while ki < sec.keys.len()
            invariant
                ki <= sec.keys.len(),
                sec == &ss[si as int],
                si < ss@.len(),
                line_buf == rows_before(ss@, si as int) + 2 + ki,
                rows_before(ss@, si as int) + 2 + sec.keys@.len() <= i32::MAX,
                keys@.len() == ki,
                forall|j: int|
                    0 <= j < ki ==> key_with_row(
                        ss@[si as int].keys@[j],
                        #[trigger] keys@[j],
                        row_of(ss@, si as int, j),
                    ),
            decreases sec.keys.len() - ki,
        {
            let k = &sec.keys[ki];
            keys.push(
                ConfigKey {
                    key_type: k.key_type,
                    slot: k.slot,
                    name: clone_chars(&k.name),
                    ypos: line_buf,
                },
            );
            line_buf = line_buf + 1;
            ki = ki + 1;
        }
        out.push(ConfigKeySection { name: clone_chars(&sec.name), keys });
        si = si + 1;
    }
    out
}

} // verus!
