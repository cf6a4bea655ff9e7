//! Finding the microarchitecture of the processor that a job ran on.

use crate::text::{
    after, chars_eq, find_get_after, lines, slice_views, split_lines, string_view, to_chars, trim,
    trimmed,
};
use vstd::prelude::*;

verus! {

/// What stands before the family of the processor in a log.
pub open spec fn family_marker() -> Seq<char> {
    "cpu family\t: "@
}

/// What stands before the model of the processor in a log.
pub open spec fn model_marker() -> Seq<char> {
    "model\t\t: "@
}

/// The microarchitecture of the Intel processor of the given family and
/// model, where it is one of those listed.
pub open spec fn microarch(family: Seq<char>, model: Seq<char>) -> Option<Seq<char>> {
    if family != "6"@ {
        None
    } else if model == "45"@ {
        Some("sandybridge"@)
    } else if model == "62"@ {
        Some("ivybridge"@)
    } else if model == "63"@ {
        Some("haswell"@)
    } else if model == "79"@ {
        Some("broadwell"@)
    } else if model == "85"@ {
        Some("skylake"@)
    } else if model == "86"@ {
        Some("broadwell"@)
    } else {
        None
    }
}

/// What follows the family marker in the first line, at or after
/// `from`, that holds it once trimmed; with the index of that line.
pub open spec fn family_from(ls: Seq<Seq<char>>, from: int) -> Option<(int, Seq<char>)>
    decreases ls.len() - from,
{
    if from < 0 || from >= ls.len() {
        None
    } else {
        match after(trimmed(ls[from]), family_marker()) {
            Some(family) => Some((from, family)),
            None => family_from(ls, from + 1),
        }
    }
}

/// What follows the model marker in the first line, at or after `from`,
/// that holds it once trimmed.
pub open spec fn model_from(ls: Seq<Seq<char>>, from: int) -> Option<Seq<char>>
    decreases ls.len() - from,
{
    if from < 0 || from >= ls.len() {
        None
    } else {
        match after(trimmed(ls[from]), model_marker()) {
            Some(model) => Some(model),
            None => model_from(ls, from + 1),
        }
    }
}

/// The microarchitecture that the log `text` tells of: that of the
/// first family it names and of the first model it names on a later
/// line. `None` where it names no such pair, or one that is not listed.
pub open spec fn microarch_of(text: Seq<char>) -> Option<Seq<char>> {
    match family_from(lines(text), 0) {
        None => None,
        Some((i, family)) => match model_from(lines(text), i + 1) {
            None => None,
            Some(model) => microarch(family, model),
        },
    }
}

fn spells(s: &[char], word: &str) -> (b: bool)
    ensures
        b == (s@ == word@),
{
    let w = to_chars(word);
    chars_eq(s, w.as_slice())
}

fn listed(family: &[char], model: &[char]) -> (r: Option<String>)
    ensures
        string_view(r) == microarch(family@, model@),
{
    if !spells(family, "6") {
        None
    } else if spells(model, "45") {
        Some("sandybridge".to_string())
    } else if spells(model, "62") {
        Some("ivybridge".to_string())
    } else if spells(model, "63") {
        Some("haswell".to_string())
    } else if spells(model, "79") {
        Some("broadwell".to_string())
    } else if spells(model, "85") {
        Some("skylake".to_string())
    } else if spells(model, "86") {
        Some("broadwell".to_string())
    } else {
        None
    }
}

/// Looks the pair of family and model up among the processors listed;
/// `None` for a pair that is not listed.
pub fn lookup_microarch(family: &str, model: &str) -> (r: Option<String>)
    ensures
        string_view(r) == microarch(family@, model@),
{
    let f = to_chars(family);
    let m = to_chars(model);
    listed(f.as_slice(), m.as_slice())
}

/// The microarchitecture of the processor that the log `contents`
/// tells of.
pub fn extract_cpu_microarch(contents: &str) -> (r: Option<String>)
    ensures
        string_view(r) == microarch_of(contents@),
{
    let chars = to_chars(contents);
    let ls = split_lines(chars.as_slice());
    let family_mark = to_chars("cpu family\t: ");
    let model_mark = to_chars("model\t\t: ");
    let ghost all = lines(contents@);
    let mut i: usize = 0;
    while i < ls.len()
        invariant
            i <= ls.len(),
            all == lines(contents@),
            slice_views(ls@) == all,
            family_mark@ == family_marker(),
            model_mark@ == model_marker(),
            family_from(all, 0) == family_from(all, i as int),
        decreases ls.len() - i,
    {
        assert(all[i as int] == ls@[i as int]@);
        match find_get_after(trim(ls[i]), family_mark.as_slice()) {
            Some(family) => {
                let mut j: usize = i + 1;
                while j < ls.len()
                    invariant
                        i < j <= ls.len(),
                        all == lines(contents@),
                        slice_views(ls@) == all,
                        family_from(all, 0) == Some((i as int, family@)),
                        model_mark@ == model_marker(),
                        model_from(all, i + 1) == model_from(all, j as int),
                    decreases ls.len() - j,
                {
                    assert(all[j as int] == ls@[j as int]@);
                    match find_get_after(trim(ls[j]), model_mark.as_slice()) {
                        Some(model) => {
                            return listed(family, model);
                        },
                        None => {},
                    }
                    j += 1;
                }
                return None;
            },
            None => {},
        }
        i += 1;
    }
    None
}

} // verus!
