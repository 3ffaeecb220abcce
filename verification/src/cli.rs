use vstd::prelude::*;
use vstd::utf8::{decode_utf8, encode_utf8};

verus! {

broadcast use vstd::utf8::group_utf8_lib;

/// What to do, as the command line asks for it.
pub struct Command {
    /// Print one JSON object instead of plain text.
    pub json: bool,
    /// The file to read.
    pub path: String,
}

/// The line printed when the arguments are not understood.
pub fn usage() -> (s: &'static str)
    ensures
        s@ == "usage: exiftime [--json] <path-to-jpeg-or-tiff>"@,
{
    "usage: exiftime [--json] <path-to-jpeg-or-tiff>"
}

/// The flag that asks for JSON output.
pub open spec fn is_json_flag(a: Seq<char>) -> bool {
    a == "--json"@
}

/// The characters of each argument.
pub open spec fn arg_texts(args: Seq<String>) -> Seq<Seq<char>> {
    args.map_values(|a: String| a@)
}

/// The arguments other than the `--json` flag.
pub open spec fn paths_of(args: Seq<Seq<char>>) -> Seq<Seq<char>> {
    args.filter(|a: Seq<char>| !is_json_flag(a))
}

/// The command that the arguments ask for: exactly one argument besides any
/// number of `--json` flags, anywhere; JSON output if the flag is there.
pub open spec fn command_of(args: Seq<Seq<char>>) -> Option<(bool, Seq<char>)> {
    if paths_of(args).len() == 1 {
        Some((args.contains("--json"@), paths_of(args)[0]))
    } else {
        None
    }
}

/// Whether two string slices hold the same characters.
fn same_text(a: &str, b: &str) -> (r: bool)
    ensures
        r == (a@ == b@),
{
    let x = a.as_bytes();
    let y = b.as_bytes();
    proof {
        assert(decode_utf8(encode_utf8(a@)) == a@);
        assert(decode_utf8(encode_utf8(b@)) == b@);
    }
    if x.len() != y.len() {
        return false;
    }
    let mut i: usize = 0;
    while i < x.len()
        invariant
            i <= x@.len(),
            x@.len() == y@.len(),
            x@ == encode_utf8(a@),
            y@ == encode_utf8(b@),
            forall|j: int| 0 <= j < i ==> x@[j] == y@[j],
        decreases x.len() - i,
    {
        if x[i] != y[i] {
            return false;
        }
        i = i + 1;
    }
    assert(x@ =~= y@);
    true
}

/// Reads the command-line arguments (without the program name); `None`
/// when they do not name exactly one file.
pub fn parse_args(args: &Vec<String>) -> (r: Option<Command>)
    ensures
        r matches Some(c) ==> command_of(arg_texts(args@)) == Some((c.json, c.path@)),
        r is None ==> command_of(arg_texts(args@)) is None,
{
    let ghost t = arg_texts(args@);
    let ghost pred = |a: Seq<char>| !is_json_flag(a);
    let mut json = false;
    let mut path: Option<String> = None;
    let mut i: usize = 0;
    assert(t.take(0).filter(pred) =~= Seq::<Seq<char>>::empty()) by {
        reveal_with_fuel(Seq::filter, 1);
    }
    while i < args.len()
        invariant
            i <= args@.len(),
            t == arg_texts(args@),
            t.len() == args@.len(),
            pred == (|a: Seq<char>| !is_json_flag(a)),
            json == t.take(i as int).contains("--json"@),
            t.take(i as int).filter(pred).len() <= 1,
            path is None <==> t.take(i as int).filter(pred).len() == 0,
            path matches Some(p) ==> p@ == t.take(i as int).filter(pred)[0],
        decreases args.len() - i,
    {
        let ghost before = t.take(i as int);
        assert(t.take(i + 1) =~= before.push(t[i as int]));
        proof {
            before.lemma_filter_push(t[i as int], pred);
            vstd::seq_lib::lemma_seq_contains_after_push(before, t[i as int], "--json"@);
        }
        if same_text(args[i].as_str(), "--json") {
            json = true;
        } else if path.is_none() {
            path = Some(args[i].clone());
        } else {
            proof {
                let now = t.take(i + 1);
                assert(t =~= now + t.skip(i + 1));
                Seq::filter_distributes_over_add(now, t.skip(i + 1), pred);
            }
            return None;
        }
        i = i + 1;
    }
    assert(t.take(i as int) =~= t);
    assert(paths_of(t) == t.filter(pred)) by {
        assert(pred == (|a: Seq<char>| !is_json_flag(a)));
    }
    match path {
        Some(p) => Some(Command { json, path: p }),
        None => None,
    }
}

proof fn lemma_single_path(args: Seq<Seq<char>>, j: int)
    requires
        0 <= j < args.len(),
        args[j] != "--json"@,
        forall|k: int| 0 <= k < args.len() && k != j ==> #[trigger] args[k] == "--json"@,
    ensures
        paths_of(args) == seq![args[j]],
    decreases args.len(),
{
    let pred = |a: Seq<char>| !is_json_flag(a);
    let p = args.drop_last();
    assert(args =~= p.push(args.last()));
    p.lemma_filter_push(args.last(), pred);
    if j == args.len() - 1 {
        assert forall|i: int| 0 <= i < p.len() implies !pred(#[trigger] p[i]) by {
            assert(p[i] == args[i]);
        }
        p.lemma_all_neg_filter_empty(pred);
        assert(paths_of(args) =~= seq![args[j]]);
    } else {
        assert forall|k: int| 0 <= k < p.len() && k != j implies #[trigger] p[k] == "--json"@ by {
            assert(p[k] == args[k]);
        }
        assert(p[j] == args[j]);
        lemma_single_path(p, j);
        assert(args.last() == args[args.len() - 1]);
    }
}

/// With exactly one argument other than `--json`, in any position, the
/// command reads that file, and asks for JSON exactly when some argument,
/// wherever it stands, is `--json`.
pub proof fn lemma_one_path_any_flag_position(args: Seq<Seq<char>>, j: int)
    requires
        0 <= j < args.len(),
        args[j] != "--json"@,
        forall|k: int| 0 <= k < args.len() && k != j ==> #[trigger] args[k] == "--json"@,
    ensures
        command_of(args) matches Some((json, path)) && path == args[j] && (json <==> exists|i: int|
            0 <= i < args.len() && #[trigger] args[i] == "--json"@),
{
    lemma_single_path(args, j);
    assert(paths_of(args)[0] == args[j]);
}

} // verus!
