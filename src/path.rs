use vstd::prelude::*;

verus! {

/// A directory path as the sequence of its component names.
pub type NamePath = Seq<Seq<char>>;

/// `name` under the directory `base`; the empty base is the root.
pub open spec fn join_spec(base: Seq<char>, name: Seq<char>) -> Seq<char> {
    if base.len() == 0 {
        name
    } else {
        base + seq!['/'] + name
    }
}

/// The text of a path: its names joined by `/`.
pub open spec fn join_path(p: NamePath) -> Seq<char>
    decreases p.len(),
{
    if p.len() == 0 {
        Seq::empty()
    } else {
        join_spec(join_path(p.drop_last()), p.last())
    }
}

/// Joins a directory path `base` to a file or directory name `name`.
pub fn join(base: &str, name: &str) -> (r: String)
    ensures
        r@ == join_spec(base@, name@),
{
    if base.is_empty() {
        name.to_owned()
    } else {
        let s = base.to_owned().concat("/");
        let r = s.concat(name);
        proof {
            reveal_strlit("/");
        }
        r
    }
}

} // verus!
