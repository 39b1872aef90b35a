//! The settings document: a small typed configuration with an input group
//! and an optional display group.

use vstd::prelude::*;

verus! {

/// The input configuration group.
pub struct Input {
    /// The configured input device name.
    pub name: String,
}

/// The display configuration group.
pub struct Display {
    /// The configured display target, when one is set.
    pub display: Option<String>,
    /// The configured screen number.
    pub screen: u8,
}

/// The whole configuration document.
pub struct Config {
    /// The input group, always present.
    pub input: Input,
    /// The display group, present only on platforms that carry one.
    pub display: Option<Display>,
}

/// The platform-appropriate default document, used when no stored document
/// can be read: an empty input-device name and, on the reference platform,
/// a default display target with screen zero; other platforms omit the
/// display group entirely.
pub fn default_config(reference_platform: bool) -> (c: Config)
    ensures
        c.input.name@ == Seq::<char>::empty(),
        reference_platform ==> (c.display matches Some(d) && d.screen == 0 && (d.display
            matches Some(s) && s@ == ":0"@)),
        !reference_platform ==> c.display is None,
{
    let display = if reference_platform {
        Some(
            Display {
                display: Some(String::from_str(":0")),
                screen: 0,
            },
        )
    } else {
        None
    };
    Config { input: Input { name: String::new() }, display }
}

} // verus!
