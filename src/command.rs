use vstd::prelude::*;
use vstd::string::{StrSliceExecFns, StringExecFns};

verus! {

/// The template word that stands for a candidate's parameter.
pub open spec fn placeholder() -> Seq<char> {
    seq!['{', '}']
}

/// Pieces of `s` between commas, in order; an empty text is one empty piece.
pub open spec fn split_commas(s: Seq<char>) -> Seq<Seq<char>>
    decreases s.len(),
{
    if s.len() == 0 {
        seq![Seq::<char>::empty()]
    } else {
        let r = split_commas(s.drop_last());
        if s.last() == ',' {
            r.push(Seq::<char>::empty())
        } else {
            r.update(r.len() - 1, r.last().push(s.last()))
        }
    }
}

/// A template word as run for the parameter `param`.
pub open spec fn resolved_word(word: Seq<char>, param: Seq<char>) -> Seq<char> {
    if word == placeholder() {
        param
    } else {
        word
    }
}

/// Words joined by single spaces.
pub open spec fn joined(ws: Seq<Seq<char>>) -> Seq<char>
    decreases ws.len(),
{
    if ws.len() == 0 {
        Seq::<char>::empty()
    } else if ws.len() == 1 {
        ws[0]
    } else {
        joined(ws.drop_last()) + seq![' '] + ws.last()
    }
}

/// Characters that a POSIX shell reads literally in a word.
pub open spec fn shell_safe(c: char) -> bool {
    ('a' <= c <= 'z') || ('A' <= c <= 'Z') || ('0' <= c <= '9') || c == '-' || c == '_' || c
        == '=' || c == '/' || c == ',' || c == '.' || c == '+'
}

/// Whether a word reads as itself in a POSIX shell: non-empty, of safe
/// characters only.
pub open spec fn shell_plain(w: Seq<char>) -> bool {
    w.len() > 0 && forall|k: int| 0 <= k < w.len() ==> shell_safe(#[trigger] w[k])
}

/// The characters of a word inside single quotes: each `'` and `!` closes the
/// quotes, is written escaped, and reopens them.
pub open spec fn quoted_chars(w: Seq<char>) -> Seq<char>
    decreases w.len(),
{
    if w.len() == 0 {
        Seq::<char>::empty()
    } else {
        let c = w.last();
        quoted_chars(w.drop_last()) + if c == '\'' || c == '!' {
            seq!['\'', '\\', c, '\'']
        } else {
            seq![c]
        }
    }
}

/// A word quoted for a POSIX shell: a plain word as it is, any other in single
/// quotes.
pub open spec fn shell_escaped(w: Seq<char>) -> Seq<char> {
    if shell_plain(w) {
        w
    } else {
        seq!['\''] + quoted_chars(w) + seq!['\'']
    }
}

/// A word that the display shows as it is: the placeholder or a plain word.
pub open spec fn shown_as_is(w: Seq<char>) -> bool {
    w == placeholder() || shell_plain(w)
}

/// A template word as displayed: the placeholder as it is, any other word quoted.
pub open spec fn display_word(w: Seq<char>) -> Seq<char> {
    if w == placeholder() {
        w
    } else {
        shell_escaped(w)
    }
}

/// The text of each string.
pub open spec fn views(ws: Seq<String>) -> Seq<Seq<char>> {
    ws.map_values(|w: String| w@)
}

proof fn lemma_split_nonempty(s: Seq<char>)
    ensures
        split_commas(s).len() >= 1,
    decreases s.len(),
{
    if s.len() > 0 {
        lemma_split_nonempty(s.drop_last());
    }
}

/// Relies on shell_escape::unix::escape: a non-empty word of whitelisted
/// characters comes back unchanged; any other is wrapped in single quotes, with
/// each `'` and `!` written as `'\'` or `'\!` followed by a reopening quote.
#[verifier::external_body]
fn escape_word(w: &String) -> (r: String)
    ensures
        r@ == shell_escaped(w@),
{
    shell_escape::unix::escape(std::borrow::Cow::from(w.as_str())).into_owned()
}

/// Whether `word` is the placeholder.
pub fn is_placeholder(word: &str) -> (r: bool)
    ensures
        r == (word@ == placeholder()),
{
    let n = word.unicode_len();
    if n != 2 {
        return false;
    }
    let a = word.get_char(0);
    let b = word.get_char(1);
    let r = a == '{' && b == '}';
    assert(r ==> word@ =~= placeholder());
    r
}

/// The comma-separated pieces of a parameter list.
pub fn split_params(s: &str) -> (r: Vec<String>)
    ensures
        views(r@) == split_commas(s@),
{
    let n = s.unicode_len();
    let mut out: Vec<String> = Vec::new();
    let mut start: usize = 0;
    let mut i: usize = 0;
    while i < n
        invariant
            start <= i <= n,
            n == s@.len(),
            out@.len() + 1 == split_commas(s@.take(i as int)).len(),
            forall|k: int| 0 <= k < out@.len() ==> (#[trigger] out@[k])@ == split_commas(s@.take(i as int))[k],
            s@.subrange(start as int, i as int) == split_commas(s@.take(i as int)).last(),
        decreases n - i,
    {
        let c = s.get_char(i);
        proof {
            assert(s@.take(i + 1).drop_last() =~= s@.take(i as int));
            lemma_split_nonempty(s@.take(i as int));
        }
        if c == ',' {
            let piece = String::from_str(s.substring_char(start, i));
            out.push(piece);
            start = i + 1;
            assert(s@.subrange(start as int, i + 1) =~= Seq::<char>::empty());
        } else {
            assert(s@.subrange(start as int, i + 1) =~= s@.subrange(start as int, i as int).push(c));
        }
        i += 1;
    }
    out.push(String::from_str(s.substring_char(start, n)));
    assert(s@.take(n as int) =~= s@);
    assert(views(out@) =~= split_commas(s@));
    out
}

/// `programs` holds, for each parameter, the template with every placeholder
/// word replaced by that parameter.
pub open spec fn resolves(programs: Seq<Vec<String>>, params: Seq<String>, template: Seq<String>) -> bool {
    &&& programs.len() == params.len()
    &&& forall|j: int| 0 <= j < programs.len() ==> (#[trigger] programs[j])@.len() == template.len()
    &&& forall|j: int, k: int|
        0 <= j < programs.len() && 0 <= k < template.len() ==> (#[trigger] programs[j]@[k])@
            == resolved_word(template[k]@, params[j]@)
}

/// The command line was given no program to run.
pub enum UsageError {
    MissingProgram,
}

/// A parsed command line: the parameters, the command template and the
/// resolved command line of each candidate.
pub struct Invocation {
    pub params: Vec<String>,
    pub template: Vec<String>,
    pub programs: Vec<Vec<String>>,
}

/// Reads the arguments that follow the program name: a comma-separated
/// parameter list, then the command template. Without a template it is a usage
/// error.
pub fn parse_args(args: &Vec<String>) -> (r: Result<Invocation, UsageError>)
    ensures
        r is Err <==> args@.len() < 2,
        r matches Ok(inv) ==> {
            &&& views(inv.params@) == split_commas(args@[0]@)
            &&& views(inv.template@) == views(args@.skip(1))
            &&& resolves(inv.programs@, inv.params@, inv.template@)
        },
{
    if args.len() < 2 {
        return Err(UsageError::MissingProgram);
    }
    let params = split_params(args[0].as_str());
    let mut template: Vec<String> = Vec::new();
    let mut i: usize = 1;
    while i < args.len()
        invariant
            1 <= i <= args@.len(),
            template@.len() == i - 1,
            forall|k: int| 0 <= k < i - 1 ==> (#[trigger] template@[k])@ == args@[k + 1]@,
        decreases args@.len() - i,
    {
        template.push(args[i].clone());
        i += 1;
    }
    assert(views(template@) =~= views(args@.skip(1)));
    let programs = resolve_commands(&params, &template);
    Ok(Invocation { params, template, programs })
}

/// One command line per parameter: the template with every placeholder word
/// replaced by that parameter.
pub fn resolve_commands(params: &Vec<String>, template: &Vec<String>) -> (r: Vec<Vec<String>>)
    ensures
        resolves(r@, params@, template@),
{
    let mut out: Vec<Vec<String>> = Vec::new();
    let mut j: usize = 0;
    while j < params.len()
        invariant
            j <= params@.len(),
            out@.len() == j,
            forall|a: int| 0 <= a < j ==> (#[trigger] out@[a])@.len() == template@.len(),
            forall|a: int, k: int|
                0 <= a < j && 0 <= k < template@.len() ==> (#[trigger] out@[a]@[k])@
                    == resolved_word(template@[k]@, params@[a]@),
        decreases params@.len() - j,
    {
        let mut line: Vec<String> = Vec::new();
        let mut k: usize = 0;
        while k < template.len()
            invariant
                j < params@.len(),
                k <= template@.len(),
                line@.len() == k,
                forall|t: int| 0 <= t < k ==> (#[trigger] line@[t])@ == resolved_word(template@[t]@, params@[j as int]@),
            decreases template@.len() - k,
        {
            if is_placeholder(template[k].as_str()) {
                line.push(params[j].clone());
            } else {
                line.push(template[k].clone());
            }
            k += 1;
        }
        out.push(line);
        j += 1;
    }
    out
}

/// Words joined by single spaces.
pub fn join_words(words: &Vec<String>) -> (r: String)
    ensures
        r@ == joined(views(words@)),
{
    let ghost ws = views(words@);
    let mut out = String::new();
    let mut i: usize = 0;
    while i < words.len()
        invariant
            i <= words@.len(),
            ws == views(words@),
            out@ == joined(ws.take(i as int)),
        decreases words@.len() - i,
    {
        proof {
            assert(ws.take(i + 1).drop_last() =~= ws.take(i as int));
            assert(ws.take(1) =~= seq![ws[0]]);
            reveal_strlit(" ");
        }
        if i > 0 {
            out.append(" ");
        }
        out.append(words[i].as_str());
        i += 1;
    }
    assert(ws.take(i as int) =~= ws);
    out
}

/// A command template as displayed: each word quoted for the shell but the
/// placeholder, joined by spaces.
pub fn shlex_quote(args: &Vec<String>) -> (r: String)
    ensures
        r@ == joined(views(args@).map_values(|w: Seq<char>| display_word(w))),
        (forall|k: int| 0 <= k < args@.len() ==> shown_as_is(#[trigger] args@[k]@)) ==> r@
            == joined(views(args@)),
{
    let mut words: Vec<String> = Vec::new();
    let mut i: usize = 0;
    while i < args.len()
        invariant
            i <= args@.len(),
            words@.len() == i,
            forall|k: int| 0 <= k < i ==> (#[trigger] words@[k])@ == display_word(args@[k]@),
        decreases args@.len() - i,
    {
        if is_placeholder(args[i].as_str()) {
            words.push(args[i].clone());
        } else {
            words.push(escape_word(&args[i]));
        }
        i += 1;
    }
    assert(views(words@) =~= views(args@).map_values(|w: Seq<char>| display_word(w)));
    proof {
        if forall|k: int| 0 <= k < args@.len() ==> shown_as_is(#[trigger] args@[k]@) {
            assert(views(words@) =~= views(args@));
        }
    }
    join_words(&words)
}

} // verus!
