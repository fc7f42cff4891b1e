//! Watching over the process that turns weights into a model.

use crate::scan::{chars_of, copy_range, push_text, text_of};
use vstd::prelude::*;

verus! {

/// How long a conversion may take, in milliseconds.
pub const CONVERT_MS: u64 = 120_000;

/// How much of what the converter said is passed on, in characters.
pub const LOG_CHARS: usize = 6_000;

/// What the process was found to be doing.
#[derive(Debug, Clone, Copy, PartialEq, Eq, Structural)]
pub enum Found {
    Running,
    Exited { success: bool },
    /// It could not be told.
    Unknown,
}

/// What to do about it.
#[derive(Debug, Clone, Copy, PartialEq, Eq, Structural)]
pub enum Watch {
    Done,
    Failed,
    /// Look again shortly.
    Wait,
    /// Kill it and give up.
    Kill,
}

/// Picks the interpreter that runs the converter: what the environment says, or what is installed,
/// or whichever one is found first.
pub fn choose_converter(model: Option<String>, installed: bool) -> (python: String)
    ensures
        python@ == (match model {
            Some(m) => m@,
            None => if installed {
                "/var/lib/robotd/model-python/bin/python"@
            } else {
                "python3"@
            },
        }),
{
    match model {
        Some(path) => path,
        None => if installed {
            "/var/lib/robotd/model-python/bin/python".to_owned()
        } else {
            "python3".to_owned()
        },
    }
}

/// What to do about a converter that has run for so long.
pub fn watch(found: Found, elapsed_ms: u64) -> (next: Watch)
    ensures
        next == (match found {
            Found::Exited { success: true } => Watch::Done,
            Found::Exited { success: false } => Watch::Failed,
            Found::Running => if elapsed_ms < CONVERT_MS {
                Watch::Wait
            } else {
                Watch::Kill
            },
            Found::Unknown => Watch::Kill,
        }),
        next is Wait <==> found is Running && elapsed_ms < 120_000,
        next is Kill <==> found is Unknown || (found is Running && elapsed_ms >= 120_000),
{
    match found {
        Found::Exited { success } => {
            if success {
                Watch::Done
            } else {
                Watch::Failed
            }
        },
        Found::Running => {
            if elapsed_ms < CONVERT_MS {
                Watch::Wait
            } else {
                Watch::Kill
            }
        },
        Found::Unknown => Watch::Kill,
    }
}

/// The beginning of a text.
pub open spec fn beginning(text: Seq<char>, most: nat) -> Seq<char> {
    if text.len() > most {
        text.take(most as int)
    } else {
        text
    }
}

/// What is said of a conversion that failed, given what the converter said.
pub fn conversion_failed(log: &str) -> (why: String)
    ensures
        why@ == "PPO 转换失败："@ + beginning(log@, LOG_CHARS as nat),
{
    let chars = chars_of(log);
    let end: usize = if chars.len() > LOG_CHARS {
        LOG_CHARS
    } else {
        chars.len()
    };
    let part = text_of(&copy_range(&chars, 0, end));
    let mut why = String::new();
    push_text(&mut why, "PPO 转换失败：");
    push_text(&mut why, part.as_str());
    proof {
        assert(part@ =~= beginning(log@, LOG_CHARS as nat));
        assert(why@ =~= "PPO 转换失败："@ + part@);
    }
    why
}

/// The beginning of a text is the text as far as it may be passed on.
pub proof fn a_beginning_is_a_prefix(text: Seq<char>, most: nat)
    ensures
        beginning(text, most).is_prefix_of(text),
        beginning(text, most).len() == (if text.len() < most {
            text.len()
        } else {
            most
        }),
        LOG_CHARS == 6_000,
{
}

} // verus!
