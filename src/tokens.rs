use vstd::prelude::*;

verus! {

broadcast use vstd::std_specs::vec::group_vec_axioms, vstd::seq::group_seq_axioms;

/// The delimiter of a token group.
#[derive(Clone, Copy, Debug, PartialEq, Eq, Structural)]
pub enum Delimiter {
    Parenthesis,
    Brace,
    Bracket,
    NoDelim,
}

/// A token tree: an atomic token or a delimited group of token trees.
#[derive(Debug, PartialEq, Eq)]
pub enum TokenTree {
    Ident(String),
    /// A punctuation character, and whether it is joined to the next one.
    Punct(char, bool),
    Literal(String),
    Group(Delimiter, Vec<TokenTree>),
}

/// The mathematical model of a token tree.
pub ghost enum Token {
    Ident(Seq<char>),
    Punct(char, bool),
    Literal(Seq<char>),
    Group(Delimiter, Seq<Token>),
}

pub open spec fn view_tree(t: TokenTree) -> Token
    decreases t,
{
    match t {
        TokenTree::Ident(s) => Token::Ident(s@),
        TokenTree::Punct(c, j) => Token::Punct(c, j),
        TokenTree::Literal(s) => Token::Literal(s@),
        TokenTree::Group(d, v) => Token::Group(d, view_seq(v@)),
    }
}

pub open spec fn view_seq(s: Seq<TokenTree>) -> Seq<Token>
    decreases s,
{
    if s.len() == 0 {
        Seq::empty()
    } else {
        view_seq(s.drop_last()).push(view_tree(s.last()))
    }
}


pub proof fn lemma_view_seq(s: Seq<TokenTree>)
    ensures
        view_seq(s).len() == s.len(),
        forall|j: int| 0 <= j < s.len() ==> #[trigger] view_seq(s)[j] == view_tree(s[j]),
    decreases s.len(),
{
    if s.len() > 0 {
        lemma_view_seq(s.drop_last());
    }
}

/// The name of the compile-time file-inclusion macro.
pub open spec fn inclusion_macro_name() -> Seq<char> {
    "include_str"@
}

/// A literal token that is a string literal.
pub open spec fn is_string_literal(t: Token) -> bool {
    t is Literal && t->Literal_0.len() > 0 && t->Literal_0[0] == '"'
}

pub open spec fn trim_quotes_start(s: Seq<char>) -> Seq<char>
    decreases s.len(),
{
    if s.len() > 0 && s[0] == '"' {
        trim_quotes_start(s.drop_first())
    } else {
        s
    }
}

pub open spec fn trim_quotes_end(s: Seq<char>) -> Seq<char>
    decreases s.len(),
{
    if s.len() > 0 && s.last() == '"' {
        trim_quotes_end(s.drop_last())
    } else {
        s
    }
}

/// The text of a literal with every leading and trailing double quote removed.
pub open spec fn trim_quotes(s: Seq<char>) -> Seq<char> {
    trim_quotes_end(trim_quotes_start(s))
}

/// An inclusion invocation starts at position `i`: the macro's name, `!`, and a
/// group whose first token is a string literal.
pub open spec fn inclusion_at(s: Seq<Token>, i: int) -> bool {
    &&& 0 <= i && i + 2 < s.len()
    &&& s[i] == Token::Ident(inclusion_macro_name())
    &&& s[i + 1] is Punct
    &&& s[i + 1]->Punct_0 == '!'
    &&& s[i + 2] is Group
    &&& s[i + 2]->Group_1.len() > 0
    &&& is_string_literal(s[i + 2]->Group_1[0])
}

/// The path named by the inclusion invocation at position `i`.
pub open spec fn inclusion_path(s: Seq<Token>, i: int) -> Seq<char> {
    trim_quotes(s[i + 2]->Group_1[0]->Literal_0)
}

/// The contents recorded for `path`: the first entry with that path.
pub open spec fn lookup(files: Seq<(Seq<char>, Seq<char>)>, path: Seq<char>) -> Option<Seq<char>>
    decreases files.len(),
{
    if files.len() == 0 {
        None
    } else if files[0].0 == path {
        Some(files[0].1)
    } else {
        lookup(files.drop_first(), path)
    }
}

/// The source text of a string literal whose value is `s`.
pub uninterp spec fn string_literal_of(s: Seq<char>) -> Seq<char>;

/// Relies on proc_macro2::Literal::string: the source text of a string literal
/// whose value is `s`, which depends on `s` alone.
#[verifier::external_body]
fn string_literal(s: &str) -> (r: String)
    ensures
        r@ == string_literal_of(s@),
{
    proc_macro2::Literal::string(s).to_string()
}

pub open spec fn prepend(a: Seq<Token>, r: Result<Seq<Token>, Seq<char>>) -> Result<Seq<Token>, Seq<char>> {
    match r {
        Ok(x) => Ok(a + x),
        Err(e) => Err(e),
    }
}

/// The token stream with every inclusion invocation, at any depth, replaced by a
/// string literal holding the named file's contents; `Err(path)` names the first
/// file (in token order) that `files` does not hold.
pub open spec fn expand_spec(s: Seq<Token>, files: Seq<(Seq<char>, Seq<char>)>) -> Result<Seq<Token>, Seq<char>>
    decreases s,
{
    if s.len() == 0 {
        Ok(Seq::empty())
    } else if inclusion_at(s, 0) {
        match lookup(files, inclusion_path(s, 0)) {
            None => Err(inclusion_path(s, 0)),
            Some(c) => prepend(
                seq![Token::Literal(string_literal_of(c))],
                expand_spec(s.subrange(3, s.len() as int), files),
            ),
        }
    } else {
        let head = s[0];
        match head {
            Token::Group(d, g) => match expand_spec(g, files) {
                Ok(g2) => prepend(seq![Token::Group(d, g2)], expand_spec(s.drop_first(), files)),
                Err(e) => Err(e),
            },
            _ => prepend(seq![head], expand_spec(s.drop_first(), files)),
        }
    }
}


/// No inclusion invocation stands anywhere in `s`, at any depth.
pub open spec fn no_inclusion(s: Seq<Token>) -> bool
    decreases s,
{
    if s.len() == 0 {
        true
    } else {
        &&& !inclusion_at(s, 0)
        &&& match s[0] {
            Token::Group(_, g) => no_inclusion(g),
            _ => true,
        }
        &&& no_inclusion(s.drop_first())
    }
}

/// A token stream without inclusion invocations comes out of expansion exactly
/// as it went in, whatever the files hold.
pub proof fn lemma_verbatim(s: Seq<Token>, files: Seq<(Seq<char>, Seq<char>)>)
    requires
        no_inclusion(s),
    ensures
        expand_spec(s, files) == Ok::<Seq<Token>, Seq<char>>(s),
    decreases s,
{
    if s.len() > 0 {
        if let Token::Group(_, g) = s[0] {
            lemma_verbatim(g, files);
        }
        lemma_verbatim(s.drop_first(), files);
        assert(seq![s[0]] + s.drop_first() =~= s);
    } else {
        assert(s =~= Seq::<Token>::empty());
    }
}

/// The macro's name followed by anything but `!` is no invocation: the name
/// passes through unchanged and expansion goes on from the next token.
pub proof fn lemma_name_without_bang(t: Token, rest: Seq<Token>, files: Seq<(Seq<char>, Seq<char>)>)
    requires
        !(t is Punct && t->Punct_0 == '!'),
    ensures
        expand_spec(seq![Token::Ident(inclusion_macro_name())].push(t) + rest, files) == prepend(
            seq![Token::Ident(inclusion_macro_name())],
            expand_spec(seq![t] + rest, files),
        ),
{
    let s = seq![Token::Ident(inclusion_macro_name())].push(t) + rest;
    assert(s[1] == t);
    assert(s.drop_first() =~= seq![t] + rest);
}

/// The model of a table of files: each path with its contents.
pub open spec fn files_view(files: Seq<(String, String)>) -> Seq<(Seq<char>, Seq<char>)> {
    files.map_values(|p: (String, String)| (p.0@, p.1@))
}

proof fn lemma_trim_start_step(s: Seq<char>, a: int)
    requires
        0 <= a < s.len(),
        s[a] == '"',
    ensures
        trim_quotes_start(s.subrange(a, s.len() as int)) == trim_quotes_start(s.subrange(a + 1, s.len() as int)),
{
    assert(s.subrange(a, s.len() as int).drop_first() =~= s.subrange(a + 1, s.len() as int));
}

proof fn lemma_trim_end_step(s: Seq<char>, a: int, b: int)
    requires
        0 <= a < b <= s.len(),
        s[b - 1] == '"',
    ensures
        trim_quotes_end(s.subrange(a, b)) == trim_quotes_end(s.subrange(a, b - 1)),
{
    assert(s.subrange(a, b).drop_last() =~= s.subrange(a, b - 1));
}

/// Removes every leading and trailing double quote of `s`.
pub fn trim_quotes_of(s: &str) -> (r: String)
    ensures
        r@ == trim_quotes(s@),
{
    let n = s.unicode_len();
    let mut a: usize = 0;
    assert(s@.subrange(0, n as int) =~= s@);
    while a < n && s.get_char(a) == '"'
        invariant
            n == s@.len(),
            a <= n,
            trim_quotes_start(s@) == trim_quotes_start(s@.subrange(a as int, n as int)),
        decreases n - a,
    {
        proof {
            lemma_trim_start_step(s@, a as int);
        }
        a = a + 1;
    }
    assert(s@.subrange(0, n as int) =~= s@);
    assert(trim_quotes_start(s@) == s@.subrange(a as int, n as int));
    let mut b: usize = n;
    while b > a && s.get_char(b - 1) == '"'
        invariant
            n == s@.len(),
            a <= b <= n,
            trim_quotes(s@) == trim_quotes_end(s@.subrange(a as int, b as int)),
        decreases b,
    {
        proof {
            lemma_trim_end_step(s@, a as int, b as int);
        }
        b = b - 1;
    }
    let t = s.substring_char(a, b);
    String::from_str(t)
}

/// The contents that `files` records for `path`.
pub fn lookup_file<'a>(files: &'a Vec<(String, String)>, path: &String) -> (r: Option<&'a String>)
    ensures
        match r {
            Some(c) => lookup(files_view(files@), path@) == Some(c@),
            None => lookup(files_view(files@), path@) is None,
        },
{
    let ghost fv = files_view(files@);
    let mut i: usize = 0;
    assert(fv.subrange(0, fv.len() as int) =~= fv);
    while i < files.len()
        invariant
            i <= files.len(),
            fv == files_view(files@),
            lookup(fv, path@) == lookup(fv.subrange(i as int, fv.len() as int), path@),
        decreases files.len() - i,
    {
        assert(fv.subrange(i as int, fv.len() as int).drop_first() =~= fv.subrange(i + 1, fv.len() as int));
        if files[i].0 == *path {
            return Some(&files[i].1);
        }
        i = i + 1;
    }
    None
}

/// Whether an inclusion invocation starts at position `i` of `toks`.
pub fn inclusion_starts_at(toks: &Vec<TokenTree>, i: usize) -> (r: bool)
    requires
        i < toks.len(),
    ensures
        r == inclusion_at(view_seq(toks@), i as int),
{
    proof {
        lemma_view_seq(toks@);
    }
    if toks.len() - i < 3 {
        return false;
    }
    let name = String::from_str("include_str");
    let is_name = match &toks[i] {
        TokenTree::Ident(s) => *s == name,
        _ => false,
    };
    let is_bang = match &toks[i + 1] {
        TokenTree::Punct(c, _) => *c == '!',
        _ => false,
    };
    let is_lit = match &toks[i + 2] {
        TokenTree::Group(_, g) => {
            proof {
                lemma_view_seq(g@);
            }
            if g.len() == 0 {
                false
            } else {
                match &g[0] {
                    TokenTree::Literal(l) => l.unicode_len() > 0 && l.get_char(0) == '"',
                    _ => false,
                }
            }
        },
        _ => false,
    };
    is_name && is_bang && is_lit
}

fn copy_atom(t: &TokenTree) -> (r: TokenTree)
    requires
        !(*t is Group),
    ensures
        view_tree(r) == view_tree(*t),
{
    match t {
        TokenTree::Ident(s) => TokenTree::Ident(s.clone()),
        TokenTree::Punct(c, j) => TokenTree::Punct(*c, *j),
        TokenTree::Literal(s) => TokenTree::Literal(s.clone()),
        TokenTree::Group(_, _) => TokenTree::Punct(' ', false),
    }
}

proof fn lemma_view_push(s: Seq<TokenTree>, t: TokenTree)
    ensures
        view_seq(s.push(t)) == view_seq(s).push(view_tree(t)),
        view_seq(s.push(t)) == view_seq(s) + seq![view_tree(t)],
{
    assert(s.push(t).drop_last() =~= s);
    assert(view_seq(s).push(view_tree(t)) =~= view_seq(s) + seq![view_tree(t)]);
}

proof fn lemma_prepend_assoc(a: Seq<Token>, b: Seq<Token>, r: Result<Seq<Token>, Seq<char>>)
    ensures
        prepend(a, prepend(b, r)) == prepend(a + b, r),
{
    if let Ok(x) = r {
        assert(a + (b + x) =~= (a + b) + x);
    }
}

/// Replaces every inclusion invocation in `toks`, at any depth, by a string
/// literal holding the contents that `files` records for the named path; fails
/// with the first path that `files` lacks.
pub fn expand_includes(toks: &Vec<TokenTree>, files: &Vec<(String, String)>) -> (r: Result<Vec<TokenTree>, String>)
    ensures
        match r {
            Ok(v) => expand_spec(view_seq(toks@), files_view(files@)) == Ok::<Seq<Token>, Seq<char>>(view_seq(v@)),
            Err(e) => expand_spec(view_seq(toks@), files_view(files@)) == Err::<Seq<Token>, Seq<char>>(e@),
        },
    decreases toks@,
{
    let ghost fv = files_view(files@);
    let ghost vs = view_seq(toks@);
    let n = toks.len();
    proof {
        lemma_view_seq(toks@);
        assert(vs.subrange(0, n as int) =~= vs);
    }
    let mut out: Vec<TokenTree> = Vec::new();
    let mut i: usize = 0;
    proof {
        if let Ok(x) = expand_spec(vs, fv) {
            assert(Seq::<Token>::empty() + x =~= x);
        }
        assert(view_seq(out@) == Seq::<Token>::empty());
    }
    while i < n
        invariant
            n == toks.len(),
            i <= n,
            vs == view_seq(toks@),
            vs.len() == n,
            fv == files_view(files@),
            forall|j: int| 0 <= j < toks.len() ==> #[trigger] vs[j] == view_tree(toks@[j]),
            expand_spec(vs, fv) == prepend(view_seq(out@), expand_spec(vs.subrange(i as int, n as int), fv)),
        decreases n - i,
    {
        let ghost si = vs.subrange(i as int, n as int);
        let ghost old_out = out@;
        assert(si[0] == vs[i as int]);
        assert(inclusion_at(si, 0) == inclusion_at(vs, i as int));
        if inclusion_starts_at(toks, i) {
            assert(inclusion_at(si, 0));
            let lit = match &toks[i + 2] {
                TokenTree::Group(_, g) => {
                    proof {
                        lemma_view_seq(g@);
                    }
                    match &g[0] {
                        TokenTree::Literal(l) => l,
                        _ => { return Err(String::new()); },
                    }
                },
                _ => { return Err(String::new()); },
            };
            let path = trim_quotes_of(lit.as_str());
            assert(path@ == inclusion_path(si, 0));
            match lookup_file(files, &path) {
                None => {
                    return Err(path);
                },
                Some(c) => {
                    let text = string_literal(c.as_str());
                    let t = TokenTree::Literal(text);
                    proof {
                        assert(expand_spec(si, fv) == prepend(seq![view_tree(t)], expand_spec(si.subrange(3, si.len() as int), fv)));
                        assert(si.subrange(3, si.len() as int) =~= vs.subrange(i + 3, n as int));
                        lemma_prepend_assoc(view_seq(old_out), seq![view_tree(t)], expand_spec(vs.subrange(i + 3, n as int), fv));
                        lemma_view_push(old_out, t);
                    }
                    out.push(t);
                    i = i + 3;
                },
            }
        } else {
            proof {
                assert(si.drop_first() =~= vs.subrange(i + 1, n as int));
            }
            match &toks[i] {
                TokenTree::Group(d, g) => {
                    match expand_includes(g, files) {
                        Err(e) => {
                            return Err(e);
                        },
                        Ok(g2) => {
                            let t = TokenTree::Group(*d, g2);
                            proof {
                                assert(expand_spec(si, fv) == prepend(seq![view_tree(t)], expand_spec(vs.subrange(i + 1, n as int), fv)));
                                lemma_prepend_assoc(view_seq(old_out), seq![view_tree(t)], expand_spec(vs.subrange(i + 1, n as int), fv));
                                lemma_view_push(old_out, t);
                            }
                            out.push(t);
                        },
                    }
                },
                _ => {
                    let t = copy_atom(&toks[i]);
                    proof {
                        assert(expand_spec(si, fv) == prepend(seq![view_tree(t)], expand_spec(vs.subrange(i + 1, n as int), fv)));
                        lemma_prepend_assoc(view_seq(old_out), seq![view_tree(t)], expand_spec(vs.subrange(i + 1, n as int), fv));
                        lemma_view_push(old_out, t);
                    }
                    out.push(t);
                },
            }
            i = i + 1;
        }
    }
    proof {
        assert(view_seq(out@) + Seq::<Token>::empty() =~= view_seq(out@));
    }
    Ok(out)
}

} // verus!
