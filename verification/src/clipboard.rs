//! Which arguments each clipboard tool needs.
use crate::text::str_eq;
use vstd::prelude::*;

verus! {

/// The arguments with which `cmd` reads the clipboard's new content from its
/// input: those of `xclip` and `xsel`, none for any other tool.
pub open spec fn tool_args(cmd: Seq<char>) -> Seq<Seq<char>> {
    if cmd == "xclip"@ {
        seq!["-selection"@, "clipboard"@]
    } else if cmd == "xsel"@ {
        seq!["--clipboard"@, "--input"@]
    } else {
        seq![]
    }
}

/// The texts of a sequence of string slices.
pub open spec fn slices(v: Seq<&'static str>) -> Seq<Seq<char>> {
    Seq::new(v.len(), |i: int| v[i]@)
}

/// The arguments that the clipboard tool `cmd` needs.
pub fn clipboard_args(cmd: &str) -> (args: Vec<&'static str>)
    ensures
        slices(args@) == tool_args(cmd@),
{
    let mut args: Vec<&'static str> = Vec::new();
    if str_eq(cmd, "xclip") {
        args.push("-selection");
        args.push("clipboard");
        assert(slices(args@) =~= seq!["-selection"@, "clipboard"@]);
    } else if str_eq(cmd, "xsel") {
        args.push("--clipboard");
        args.push("--input");
        assert(slices(args@) =~= seq!["--clipboard"@, "--input"@]);
    } else {
        assert(slices(args@) =~= Seq::<Seq<char>>::empty());
    }
    args
}

} // verus!
