//! What the command line asks for.
use vstd::prelude::*;

use crate::infer::GenerateConfig;
use crate::text::{parse_usize, parsed_usize};
use crate::vocabulary::string_views;

verus! {

/// What to do.
#[derive(Debug)]
pub enum Mode {
    /// Train on the text in a file.
    Train { data_path: Option<String> },
    /// Continue a prompt.
    Infer { prompt: String, config: GenerateConfig },
}

/// The contents of an optional string.
pub open spec fn option_view(s: Option<String>) -> Option<Seq<char>> {
    match s {
        Some(t) => Some(t@),
        None => None,
    }
}

/// The number of arguments before the first one that is `flag`, or of all where none is.
pub open spec fn before_flag(args: Seq<Seq<char>>, flag: Seq<char>) -> nat
    decreases args.len(),
{
    if args.len() == 0 || args[0] == flag {
        0
    } else {
        1 + before_flag(args.drop_first(), flag)
    }
}

/// The argument behind the first `flag`.
pub open spec fn flag_value(args: Seq<Seq<char>>, flag: Seq<char>) -> Option<Seq<char>> {
    let i = before_flag(args, flag) as int;
    if i + 1 < args.len() {
        Some(args[i + 1])
    } else {
        None
    }
}

/// The number behind the first `flag`, or `default` where there is none.
pub open spec fn flag_usize(args: Seq<Seq<char>>, flag: Seq<char>, default: usize) -> usize {
    match flag_value(args, flag) {
        Some(s) => match parsed_usize(s) {
            Some(n) => n,
            None => default,
        },
        None => default,
    }
}

/// The prompt: what stands behind `--prompt`, else the third argument, else a greeting.
pub open spec fn prompt_of(args: Seq<Seq<char>>) -> Seq<char> {
    match flag_value(args, "--prompt"@) {
        Some(s) => s,
        None => if args.len() > 2 {
            args[2]
        } else {
            "Привет"@
        },
    }
}

/// Whether the arguments ask for inference.
pub open spec fn asks_to_infer(args: Seq<Seq<char>>) -> bool {
    args.contains("--infer"@) || args.contains("infer"@)
}

/// Whether two texts are the same.
fn same(a: &str, b: &str) -> (r: bool)
    ensures
        r == (a@ == b@),
{
    let x: String = a.to_string();
    let y: String = b.to_string();
    x == y
}

proof fn lemma_before_flag(args: Seq<Seq<char>>, flag: Seq<char>, n: int)
    requires
        0 <= n <= args.len(),
        forall|i: int| 0 <= i < n ==> args[i] != flag,
        n < args.len() ==> args[n] == flag,
    ensures
        before_flag(args, flag) == n,
    decreases n,
{
    if n > 0 {
        assert(args[0] != flag);
        lemma_before_flag(args.drop_first(), flag, n - 1);
    }
}

/// The argument behind the first `flag`.
pub fn get_string(args: &[String], flag: &str) -> (r: Option<String>)
    ensures
        option_view(r) == flag_value(string_views(args@), flag@),
{
    let ghost views = string_views(args@);
    let mut i: usize = 0;
    while i < args.len() && !same(args[i].as_str(), flag)
        invariant
            i <= args@.len(),
            views == string_views(args@),
            forall|k: int| 0 <= k < i ==> views[k] != flag@,
        decreases args.len() - i,
    {
        i += 1;
    }
    proof {
        lemma_before_flag(views, flag@, i as int);
    }
    if i < args.len() && i + 1 < args.len() {
        Some(args[i + 1].clone())
    } else {
        None
    }
}

/// The number behind the first `flag`, or `default` where there is none.
pub fn get_usize(args: &[String], flag: &str, default: usize) -> (n: usize)
    ensures
        n == flag_usize(string_views(args@), flag@, default),
{
    match get_string(args, flag) {
        Some(s) => match parse_usize(s.as_str()) {
            Some(n) => n,
            None => default,
        },
        None => default,
    }
}

/// The prompt: what stands behind `--prompt`, else the third argument, else a greeting.
pub fn get_prompt(args: &[String]) -> (s: String)
    ensures
        s@ == prompt_of(string_views(args@)),
{
    match get_string(args, "--prompt") {
        Some(s) => s,
        None => if args.len() > 2 {
            args[2].clone()
        } else {
            "Привет".to_string()
        },
    }
}

/// Whether an argument asks for inference.
fn has_infer(args: &[String]) -> (r: bool)
    ensures
        r == asks_to_infer(string_views(args@)),
{
    let ghost views = string_views(args@);
    let mut i: usize = 0;
    while i < args.len()
        invariant
            i <= args@.len(),
            views == string_views(args@),
            forall|k: int|
                0 <= k < i ==> #[trigger] views[k] != "--infer"@ && views[k] != "infer"@,
        decreases args.len() - i,
    {
        assert(views[i as int] == args@[i as int]@);
        if same(args[i].as_str(), "--infer") || same(args[i].as_str(), "infer") {
            assert(views.contains(views[i as int]));
            return true;
        }
        i += 1;
    }
    false
}

/// Reads the command line.
pub fn parse_args(args: &[String]) -> (m: Mode)
    ensures
        ({
            let a = string_views(args@);
            match m {
                Mode::Infer { prompt, config } => {
                    &&& asks_to_infer(a)
                    &&& prompt@ == prompt_of(a)
                    &&& config.max_steps == flag_usize(a, "--steps"@, 100)
                    &&& option_view(config.temperature) == flag_value(a, "--temp"@)
                    &&& config.top_k == flag_usize(a, "--topk"@, 40)
                    &&& option_view(config.top_p) == flag_value(a, "--topp"@)
                    &&& config.max_len == flag_usize(a, "--maxlen"@, 128)
                },
                Mode::Train { data_path } => {
                    &&& !asks_to_infer(a)
                    &&& option_view(data_path) == flag_value(a, "--data"@)
                },
            }
        }),
{
    if has_infer(args) {
        let prompt = get_prompt(args);
        let config = GenerateConfig {
            max_steps: get_usize(args, "--steps", 100),
            temperature: get_string(args, "--temp"),
            top_k: get_usize(args, "--topk", 40),
            top_p: get_string(args, "--topp"),
            max_len: get_usize(args, "--maxlen", 128),
        };
        return Mode::Infer { prompt, config };
    }
    Mode::Train { data_path: get_string(args, "--data") }
}

} // verus!
