//! The script that names a file and says how many parts it was split into.
use vstd::prelude::*;

use crate::gog::path;
use crate::gog::script;
use crate::text;

verus! {

/// What the first entry of a split file says of it.
#[verifier::ext_equal]
pub struct StartModel {
    pub path: Seq<char>,
    pub checksum: Option<Seq<char>>,
    pub parts: int,
}

/// What the first entry of a split file says of it: where the file is written,
/// the checksum of its finished contents, and the number of its parts.
pub struct Start {
    pub path: String,
    pub checksum: Option<String>,
    pub parts: usize,
}

impl View for Start {
    type V = StartModel;

    open spec fn view(&self) -> StartModel {
        StartModel {
            path: self.path@,
            checksum: self.checksum.deep_view(),
            parts: self.parts as int,
        }
    }
}

impl DeepView for Start {
    type V = StartModel;

    open spec fn deep_view(&self) -> StartModel {
        self@
    }
}

/// The arguments of a `before_install` call in either of its spellings.
pub open spec fn marker_arguments(code: Seq<char>) -> Option<Seq<Seq<char>>> {
    match script::call(code, "before_install"@) {
        Some(arguments) => Some(arguments),
        None => script::call(code, "before_install_dependency"@),
    }
}

/// The part count that a call gives in its third argument. One that is missing,
/// unreadable or zero counts as one.
pub open spec fn part_count(arguments: Seq<Seq<char>>) -> int {
    if arguments.len() > 2 {
        match text::decimal_number(arguments[2]) {
            Some(n) => if n >= 1 {
                n
            } else {
                1
            },
            None => 1,
        }
    } else {
        1
    }
}

/// What a script says of the file that begins at its entry, if one does.
pub open spec fn started_by(code: Seq<char>) -> Option<StartModel> {
    match marker_arguments(code) {
        Some(arguments) => if arguments.len() >= 2 && arguments[1].len() > 0 {
            Some(
                StartModel {
                    path: path::normalized(arguments[1]),
                    checksum: Some(text::lowered(arguments[0])),
                    parts: part_count(arguments),
                },
            )
        } else {
            None
        },
        None => None,
    }
}

/// Reads `before_install('<id>', '<path>', <parts>)`, and the `_dependency`
/// spelling used for the redistributables GOG ships alongside the game.
pub fn start_of_file(script: &str) -> (result: Option<Start>)
    ensures
        result.deep_view() == started_by(script@),
{
    let arguments = match script::call_arguments(script, "before_install") {
        Some(arguments) => arguments,
        None => match script::call_arguments(script, "before_install_dependency") {
            Some(arguments) => arguments,
            None => return None,
        },
    };
    let ghost model = arguments.deep_view();
    assert(marker_arguments(script@) == Some(model));
    if arguments.len() < 2 || arguments[1].as_str().is_empty() {
        return None;
    }
    assert(model[0] == arguments@[0]@ && model[1] == arguments@[1]@);

    // A part count that is missing or unreadable means one part. Dropping the
    // file instead would lose it entirely over a detail that only matters for
    // files large enough to be split.
    let mut parts: usize = 1;
    if arguments.len() > 2 {
        assert(model[2] == arguments@[2]@);
        let count = text::characters(arguments[2].as_str());
        if let Some(n) = text::parse_number(count.as_slice()) {
            if n >= 1 {
                parts = n;
            }
        }
    }
    Some(
        Start {
            path: path::normalize(arguments[1].as_str()),
            checksum: Some(text::lower_case(arguments[0].as_str())),
            parts,
        },
    )
}

} // verus!
