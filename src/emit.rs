//! The build instructions that hand the parsed entries on.
use vstd::prelude::*;
use vstd::string::*;

use crate::errors::Error;
use crate::iter::{all_ok, lines_view, outcomes, parse_lines, Outcome};
use crate::Config;

verus! {

/// `cargo:rustc-env=KEY=VALUE`
pub open spec fn env_instruction(k: Seq<char>, v: Seq<char>) -> Seq<char> {
    "cargo:rustc-env="@ + k + "="@ + v
}

/// `cargo:rerun-if-changed=PATH`
pub open spec fn rerun_instruction(path: Seq<char>) -> Seq<char> {
    "cargo:rerun-if-changed="@ + path
}

fn env_line(k: &String, v: &String) -> (r: String)
    ensures
        r@ == env_instruction(k@, v@),
{
    let mut r = String::from_str("cargo:rustc-env=");
    r.append(k.as_str());
    r.append("=");
    r.append(v.as_str());
    r
}

/// The instructions for the outcome of a search: `found` is the path of the
/// file with its lines, or the error that ended the search.
///
/// A missing file gives no instructions, or the `NotFound` error where the
/// configuration asks for it; any other search error is passed on. A found
/// file gives one environment instruction per entry, in file order, then a
/// rerun instruction for its path; a malformed line gives its error instead.
pub fn build_instructions(config: &Config, found: Result<(String, Vec<String>), Error>) -> (r:
    Result<Vec<String>, Error>)
    ensures
        match found {
            Err(Error::NotFound) => if config.fail_if_missing_dotenv {
                r is Err && r->Err_0 is NotFound
            } else {
                r is Ok && r->Ok_0@.len() == 0
            },
            Err(e) => r == Err::<Vec<String>, Error>(e),
            Ok((path, lines)) => {
                let outs = outcomes(lines_view(lines@));
                &&& r is Ok <==> all_ok(outs)
                &&& r is Ok ==> {
                    &&& r->Ok_0@.len() == outs.len() + 1
                    &&& forall|i: int|
                        0 <= i < outs.len() ==> #[trigger] r->Ok_0@[i]@ == env_instruction(
                            outs[i]->Ok_0.0,
                            outs[i]->Ok_0.1,
                        )
                    &&& r->Ok_0@[outs.len() as int]@ == rerun_instruction(path@)
                }
                &&& r is Err ==> r->Err_0 is LineParse && outs.len() > 0
                    && r->Err_0->LineParse_0@ == outs.last()->Err_0
            },
        },
{
    match found {
        Err(Error::NotFound) => {
            if config.fail_if_missing_dotenv {
                Err(Error::NotFound)
            } else {
                Ok(Vec::new())
            }
        },
        Err(e) => Err(e),
        Ok((path, lines)) => {
            let ghost outs = outcomes(lines_view(lines@));
            let entries = match parse_lines(lines) {
                Ok(entries) => entries,
                Err(e) => {
                    return Err(e);
                },
            };
            let mut r: Vec<String> = Vec::new();
            let mut i: usize = 0;
            while i < entries.len()
                invariant
                    entries@.len() == outs.len(),
                    forall|j: int|
                        0 <= j < outs.len() ==> outs[j] == Outcome::Ok(
                            (#[trigger] entries@[j].0@, entries@[j].1@),
                        ),
                    i <= entries@.len(),
                    r@.len() == i,
                    forall|j: int|
                        0 <= j < i ==> #[trigger] r@[j]@ == env_instruction(
                            outs[j]->Ok_0.0,
                            outs[j]->Ok_0.1,
                        ),
                decreases entries@.len() - i,
            {
                let line = env_line(&entries[i].0, &entries[i].1);
                assert(outs[i as int] == Outcome::Ok((entries@[i as int].0@, entries@[i as int].1@)));
                r.push(line);
                i = i + 1;
            }
            let mut last = String::from_str("cargo:rerun-if-changed=");
            last.append(path.as_str());
            r.push(last);
            Ok(r)
        },
    }
}

} // verus!
