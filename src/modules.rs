use vstd::prelude::*;

verus! {

/// What module expansion does with one module declaration.
#[derive(Debug, PartialEq, Eq, Structural)]
pub enum ModAction {
    /// An inline module named `tests`: its content is emptied.
    Clear,
    /// Any other inline module: kept, and expanded inside.
    Keep,
    /// A module without a body: loaded from a file.
    Load,
}

pub open spec fn mod_action(name: Seq<char>, inline: bool) -> ModAction {
    if inline {
        if name == "tests"@ {
            ModAction::Clear
        } else {
            ModAction::Keep
        }
    } else {
        ModAction::Load
    }
}

/// Decides what to do with the module declaration `name`, which has an inline
/// body where `inline` holds.
pub fn expand_mods(name: &String, inline: bool) -> (r: ModAction)
    ensures
        r == mod_action(name@, inline),
{
    if inline {
        let tests = String::from_str("tests");
        if *name == tests {
            ModAction::Clear
        } else {
            ModAction::Keep
        }
    } else {
        ModAction::Load
    }
}

/// A place where the source of a module may stand: the file `file` in the
/// directory `subdir` of the parent's directory (the parent's directory itself
/// where `subdir` is `None`), which is also the base for the module's own modules.
#[derive(Debug)]
pub struct Candidate {
    pub subdir: Option<String>,
    pub file: String,
}

/// The places where the source of module `name` is looked for, in order:
/// `<name>.rs`, then `<name>/mod.rs`.
pub fn module_candidates(name: &str) -> (r: Vec<Candidate>)
    ensures
        r.len() == 2,
        r[0].subdir is None,
        r[0].file@ == name@ + ".rs"@,
        r[1].subdir matches Some(d) && d@ == name@,
        r[1].file@ == "mod.rs"@,
{
    let mut first = String::from_str(name);
    first.append(".rs");
    let mut r: Vec<Candidate> = Vec::new();
    r.push(Candidate { subdir: None, file: first });
    r.push(Candidate { subdir: Some(String::from_str(name)), file: String::from_str("mod.rs") });
    r
}

/// The first candidate that exists, given whether each one does.
pub fn pick_candidate(exists: &Vec<bool>) -> (r: Option<usize>)
    ensures
        match r {
            Some(i) => i < exists.len() && exists[i as int] && forall|j: int| 0 <= j < i ==> !exists[j],
            None => forall|j: int| 0 <= j < exists.len() ==> !exists[j],
        },
{
    let mut i: usize = 0;
    while i < exists.len()
        invariant
            i <= exists.len(),
            forall|j: int| 0 <= j < i ==> !exists[j],
        decreases exists.len() - i,
    {
        if exists[i] {
            return Some(i);
        }
        i = i + 1;
    }
    None
}

} // verus!
