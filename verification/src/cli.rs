//! Command-line arguments of the fixture runner.

use vstd::prelude::*;
use crate::runner::RunnerOptions;
use crate::text::{chars_of, parse_unsigned, parse_unsigned_spec, push_str, string_of};

verus! {

/// What the command line asks for.
#[derive(Debug)]
pub enum Arguments {
    Help,
    Run { options: RunnerOptions, paths: Vec<String> },
}

/// The option that sets an instruction limit.
pub open spec fn limit_prefix() -> Seq<char> {
    "--max-instructions="@
}

/// What the arguments from position `i` on decide, given the limit and
/// the paths seen so far. `Ok(None)` asks for help.
pub open spec fn arguments_from(
    args: Seq<Seq<char>>,
    i: int,
    limit: Option<u64>,
    paths: Seq<Seq<char>>,
) -> Result<Option<(Option<u64>, Seq<Seq<char>>)>, Seq<char>>
    decreases args.len() - i,
{
    if i < 0 || i >= args.len() {
        if paths.len() == 0 {
            Err("at least one file or directory path is required"@)
        } else {
            Ok(Some((limit, paths)))
        }
    } else {
        let a = args[i];
        if a == "--help"@ {
            Ok(None)
        } else if a.len() >= limit_prefix().len() && a.subrange(0, limit_prefix().len() as int) == limit_prefix() {
            if limit is Some {
                Err("`--max-instructions` may be supplied only once"@)
            } else {
                match parse_unsigned_spec(a.subrange(limit_prefix().len() as int, a.len() as int), u64::MAX as nat) {
                    None => Err("`--max-instructions` must be an integer"@),
                    Some(v) => arguments_from(args, i + 1, Some(v as u64), paths),
                }
            }
        } else if a.len() > 0 && a[0] == '-' {
            Err("unknown option `"@ + a + "`"@)
        } else {
            arguments_from(args, i + 1, limit, paths.push(a))
        }
    }
}

fn starts_with(text: &[char], prefix: &[char]) -> (r: bool)
    ensures
        r == (text@.len() >= prefix@.len() && text@.subrange(0, prefix@.len() as int) == prefix@),
{
    if text.len() < prefix.len() {
        return false;
    }
    let mut i: usize = 0;
    while i < prefix.len()
        invariant
            i <= prefix@.len() <= text@.len(),
            forall|k: int| 0 <= k < i ==> text@[k] == prefix@[k],
        decreases prefix.len() - i,
    {
        if text[i] != prefix[i] {
            assert(text@.subrange(0, prefix@.len() as int)[i as int] != prefix@[i as int]);
            return false;
        }
        i = i + 1;
    }
    assert(text@.subrange(0, prefix@.len() as int) =~= prefix@);
    true
}

fn chars_equal(a: &[char], b: &[char]) -> (r: bool)
    ensures
        r == (a@ == b@),
{
    if a.len() != b.len() {
        return false;
    }
    let r = starts_with(a, b);
    assert(a@.subrange(0, b@.len() as int) =~= a@);
    r
}

/// Reads the runner's command line (program name excluded).
pub fn parse_arguments(arguments: &Vec<String>) -> (parsed: Result<Arguments, String>)
    ensures
        match arguments_from(arguments@.map_values(|a: String| a@), 0, None, Seq::empty()) {
            Ok(None) => parsed matches Ok(Arguments::Help),
            Ok(Some((limit, paths))) => parsed matches Ok(Arguments::Run { options, paths: p })
                && options.max_instructions == limit && p@.map_values(|a: String| a@) == paths,
            Err(m) => parsed matches Err(e) && e@ == m,
        },
{
    let ghost args = arguments@.map_values(|a: String| a@);
    let help = chars_of("--help");
    let prefix = chars_of("--max-instructions=");
    let mut limit: Option<u64> = None;
    let mut paths: Vec<String> = Vec::new();
    let mut i: usize = 0;
    assert(paths@.map_values(|a: String| a@) =~= Seq::<Seq<char>>::empty());
    while i < arguments.len()
        invariant
            i <= arguments@.len(),
            args == arguments@.map_values(|a: String| a@),
            help@ == "--help"@,
            prefix@ == limit_prefix(),
            arguments_from(args, 0, None, Seq::empty()) == arguments_from(args, i as int, limit, paths@.map_values(|a: String| a@)),
        decreases arguments.len() - i,
    {
        let argument = chars_of(arguments[i].as_str());
        assert(argument@ == args[i as int]);
        if chars_equal(argument.as_slice(), help.as_slice()) {
            return Ok(Arguments::Help);
        }
        if starts_with(argument.as_slice(), prefix.as_slice()) {
            if limit.is_some() {
                return Err("`--max-instructions` may be supplied only once".to_owned());
            }
            let mut digits: Vec<char> = Vec::new();
            let mut k = prefix.len();
            while k < argument.len()
                invariant
                    prefix@.len() <= k <= argument@.len(),
                    digits@ == argument@.subrange(prefix@.len() as int, k as int),
                decreases argument.len() - k,
            {
                digits.push(argument[k]);
                k = k + 1;
                assert(argument@.subrange(prefix@.len() as int, k as int) =~= argument@.subrange(prefix@.len() as int, k - 1).push(argument@[k - 1]));
            }
            match parse_unsigned(digits.as_slice(), u64::MAX) {
                None => {
                    return Err("`--max-instructions` must be an integer".to_owned());
                },
                Some(v) => {
                    limit = Some(v);
                },
            }
        } else if argument.len() > 0 && argument[0] == '-' {
            let mut message: Vec<char> = Vec::new();
            push_str(&mut message, "unknown option `");
            push_str(&mut message, arguments[i].as_str());
            push_str(&mut message, "`");
            return Err(string_of(message.as_slice()));
        } else {
            let ghost before = paths@;
            paths.push(arguments[i].clone());
            assert(paths@.map_values(|a: String| a@) =~= before.map_values(|a: String| a@).push(args[i as int]));
        }
        i = i + 1;
    }
    if paths.len() == 0 {
        return Err("at least one file or directory path is required".to_owned());
    }
    Ok(Arguments::Run { options: RunnerOptions { max_instructions: limit }, paths })
}

} // verus!
