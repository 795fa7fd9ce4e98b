//! The command grammar and its recognizer.
//!
//! ```text
//! command   := '/' verb (WS target)? (WS flag)* WS?
//! WS        := Unicode White_Space characters
//! verb      := (letter | digit | '_')+
//! target    := a word that does not begin with "--"
//! flag      := "--" key '=' value     (key: up to the first '=')
//! bad_flag  := "--" followed by a word without '='
//! ```
//!
//! Recognition turns a line into a sequence of [`Node`]s in document order.
use vstd::prelude::*;
use crate::text::{chars_of, is_space, is_verb_char, space, string_of, verb_char};

verus! {

/// The maximal runs of non-space characters of `s`, left to right.
pub open spec fn words(s: Seq<char>) -> Seq<Seq<char>>
    decreases s.len(),
{
    if s.len() == 0 {
        seq![]
    } else {
        let w = words(s.drop_last());
        let c = s.last();
        if is_space(c) {
            w
        } else if s.len() >= 2 && !is_space(s[s.len() - 2]) {
            w.update(w.len() - 1, w.last().push(c))
        } else {
            w.push(seq![c])
        }
    }
}

/// A word that begins with `--`.
pub open spec fn is_flag_word(w: Seq<char>) -> bool {
    w.len() >= 2 && w[0] == '-' && w[1] == '-'
}

/// Every character of `v` may stand in a verb.
pub open spec fn all_verb_chars(v: Seq<char>) -> bool {
    forall|i: int| 0 <= i < v.len() ==> is_verb_char(#[trigger] v[i])
}

/// Every word of `f` begins with `--`.
pub open spec fn all_flag_words(f: Seq<Seq<char>>) -> bool {
    forall|i: int| 0 <= i < f.len() ==> is_flag_word(#[trigger] f[i])
}

/// What a node of the parse holds.
pub enum NodeView {
    Verb(Seq<char>),
    Target(Seq<char>),
    Flag { key: Option<Seq<char>>, value: Option<Seq<char>> },
    BadFlag(Seq<char>),
}

/// The node for a word that begins with `--`: a flag split at its first `=`,
/// or a malformed flag where there is no `=`.
pub open spec fn flag_node(w: Seq<char>) -> NodeView {
    let body = w.skip(2);
    match body.index_of_first('=') {
        Some(p) => NodeView::Flag { key: Some(body.take(p)), value: Some(body.skip(p + 1)) },
        None => NodeView::BadFlag(w),
    }
}

/// The nodes that recognizing `s` yields, or `None` where `s` is not a command.
pub open spec fn recognize_spec(s: Seq<char>) -> Option<Seq<NodeView>> {
    let w = words(s.drop_first());
    if s.len() < 2 || s[0] != '/' || is_space(s[1]) || w.len() == 0 {
        None
    } else {
        let verb = w[0];
        let rest = w.skip(1);
        let has_target = rest.len() > 0 && !is_flag_word(rest[0]);
        let flags = if has_target {
            rest.skip(1)
        } else {
            rest
        };
        if all_verb_chars(verb) && all_flag_words(flags) {
            Some(
                seq![NodeView::Verb(verb)] + (if has_target {
                    seq![NodeView::Target(rest[0])]
                } else {
                    seq![]
                }) + flags.map_values(|f: Seq<char>| flag_node(f)),
            )
        } else {
            None
        }
    }
}

/// A node of a recognized command, in document order.
#[derive(Debug, PartialEq, Eq)]
pub enum Node {
    /// The command's verb.
    Verb(String),
    /// The command's target.
    Target(String),
    /// A flag with its key and value, either of which may be absent.
    Flag { key: Option<String>, value: Option<String> },
    /// A segment that begins with `--` but is no well-formed flag.
    BadFlag(String),
}

/// The characters of an optional string.
pub open spec fn opt_view(o: Option<String>) -> Option<Seq<char>> {
    match o {
        Some(s) => Some(s@),
        None => None,
    }
}

impl View for Node {
    type V = NodeView;

    open spec fn view(&self) -> NodeView {
        match self {
            Node::Verb(s) => NodeView::Verb(s@),
            Node::Target(s) => NodeView::Target(s@),
            Node::Flag { key, value } => NodeView::Flag { key: opt_view(*key), value: opt_view(*value) },
            Node::BadFlag(s) => NodeView::BadFlag(s@),
        }
    }
}

/// The characters of each word.
pub open spec fn word_views(v: Seq<Vec<char>>) -> Seq<Seq<char>> {
    v.map_values(|w: Vec<char>| w@)
}

/// What each node holds.
pub open spec fn node_views(v: Seq<Node>) -> Seq<NodeView> {
    v.map_values(|n: Node| n@)
}

/// The words of `s[start..]`.
fn split_words(s: &Vec<char>, start: usize) -> (r: Vec<Vec<char>>)
    requires
        start <= s@.len(),
    ensures
        word_views(r@) == words(s@.skip(start as int)),
{
    let mut done: Vec<Vec<char>> = Vec::new();
    let mut cur: Vec<char> = Vec::new();
    let mut i: usize = start;
    while i < s.len()
        invariant
            start <= i <= s@.len(),
            words(s@.subrange(start as int, i as int)) == word_views(done@) + (if cur@.len() > 0 {
                seq![cur@]
            } else {
                seq![]
            }),
            cur@.len() > 0 <==> (i > start && !is_space(s@[i - 1])),
        decreases s.len() - i,
    {
        let c = s[i];
        let ghost before = word_views(done@);
        let ghost old_cur = cur@;
        let ghost prefix = s@.subrange(start as int, i as int + 1);
        let ghost w = words(s@.subrange(start as int, i as int));
        assert(prefix.drop_last() =~= s@.subrange(start as int, i as int));
        assert(prefix.last() == c);
        if space(c) {
            assert(words(prefix) == w);
            if cur.len() > 0 {
                done.push(cur);
                cur = Vec::new();
                assert(word_views(done@) =~= before.push(old_cur));
                assert(word_views(done@) + seq![] =~= w);
            }
        } else {
            cur.push(c);
            if cur.len() > 1 {
                assert(prefix.len() >= 2 && prefix[prefix.len() - 2] == s@[i - 1]);
                assert(w == before + seq![old_cur]);
                assert(words(prefix) == w.update(w.len() - 1, w.last().push(c)));
                assert(words(prefix) =~= before + seq![cur@]);
            } else {
                assert(w =~= before);
                assert(words(prefix) == w.push(seq![c]));
                assert(cur@ =~= seq![c]);
                assert(words(prefix) =~= before + seq![cur@]);
            }
        }
        i = i + 1;
    }
    if cur.len() > 0 {
        let ghost before = word_views(done@);
        done.push(cur);
        assert(word_views(done@) =~= before.push(cur@));
    } else {
        assert(word_views(done@) + seq![] =~= word_views(done@));
    }
    assert(s@.subrange(start as int, s@.len() as int) =~= s@.skip(start as int));
    done
}

fn flag_word(w: &Vec<char>) -> (r: bool)
    ensures
        r == is_flag_word(w@),
{
    w.len() >= 2 && w[0] == '-' && w[1] == '-'
}

/// The node for a word that begins with `--`.
fn flag_word_node(w: &Vec<char>) -> (r: Node)
    requires
        is_flag_word(w@),
    ensures
        r@ == flag_node(w@),
{
    let ghost body = w@.skip(2);
    let mut p: usize = 2;
    while p < w.len()
        invariant
            2 <= p <= w@.len(),
            body == w@.skip(2),
            forall|j: int| 2 <= j < p ==> w@[j] != '=',
        decreases w.len() - p,
    {
        if w[p] == '=' {
            proof {
                body.index_of_first_ensures('=');
                assert(body[p - 2] == '=');
                assert forall|j: int| 0 <= j < p - 2 implies body[j] != '=' by {
                    assert(body[j] == w@[j + 2]);
                }
            }
            let key = string_of(w, 2, p);
            let value = string_of(w, p + 1, w.len());
            assert(body.take(p - 2) =~= w@.subrange(2, p as int));
            assert(body.skip(p - 1) =~= w@.subrange(p + 1, w@.len() as int));
            return Node::Flag { key: Some(key), value: Some(value) };
        }
        p = p + 1;
    }
    proof {
        body.index_of_first_ensures('=');
        assert forall|j: int| 0 <= j < body.len() implies body[j] != '=' by {
            assert(body[j] == w@[j + 2]);
        }
    }
    let whole = string_of(w, 0, w.len());
    assert(w@.subrange(0, w@.len() as int) =~= w@);
    Node::BadFlag(whole)
}

/// Recognizes `input` as a command: its nodes in document order, or `None`
/// where the line does not match the grammar.
pub fn recognize(input: &str) -> (r: Option<Vec<Node>>)
    ensures
        match r {
            Some(n) => recognize_spec(input@) == Some(node_views(n@)),
            None => recognize_spec(input@) is None,
        },
{
    let s = chars_of(input);
    if s.len() < 2 || s[0] != '/' || space(s[1]) {
        return None;
    }
    let w = split_words(&s, 1);
    let ghost ws = word_views(w@);
    assert(s@.skip(1) =~= s@.drop_first());
    if w.len() == 0 {
        return None;
    }
    let verb = &w[0];
    let mut i: usize = 0;
    while i < verb.len()
        invariant
            i <= verb@.len(),
            s@ == input@,
            2 <= s@.len(),
            s@[0] == '/',
            !is_space(s@[1]),
            ws == word_views(w@),
            ws == words(s@.drop_first()),
            ws.len() > 0,
            verb@ == ws[0],
            forall|j: int| 0 <= j < i ==> is_verb_char(#[trigger] verb@[j]),
        decreases verb.len() - i,
    {
        if !verb_char(verb[i]) {
            assert(!is_verb_char(ws[0][i as int]));
            return None;
        }
        i = i + 1;
    }
    let mut nodes: Vec<Node> = Vec::new();
    nodes.push(Node::Verb(string_of(verb, 0, verb.len())));
    assert(verb@.subrange(0, verb@.len() as int) =~= verb@);
    let mut k: usize = 1;
    if w.len() > 1 && !flag_word(&w[1]) {
        let t = string_of(&w[1], 0, w[1].len());
        assert(w@[1]@.subrange(0, w@[1]@.len() as int) =~= w@[1]@);
        nodes.push(Node::Target(t));
        k = 2;
    }
    let ghost k0 = k as int;
    let ghost first = node_views(nodes@);
    let ghost flags = ws.skip(k0);
    while k < w.len()
        invariant
            k0 <= k <= w@.len(),
            s@ == input@,
            2 <= s@.len(),
            s@[0] == '/',
            !is_space(s@[1]),
            ws == word_views(w@),
            ws == words(s@.drop_first()),
            ws.len() > 0,
            forall|j: int| 0 <= j < ws[0].len() ==> is_verb_char(#[trigger] ws[0][j]),
            k0 == (if ws.len() > 1 && !is_flag_word(ws[1]) {
                2int
            } else {
                1int
            }),
            first == seq![NodeView::Verb(ws[0])] + (if k0 == 2 {
                seq![NodeView::Target(ws[1])]
            } else {
                seq![]
            }),
            flags == ws.skip(k0),
            node_views(nodes@) == first + flags.take(k - k0).map_values(|f: Seq<char>| flag_node(f)),
            forall|j: int| 0 <= j < k - k0 ==> is_flag_word(#[trigger] flags[j]),
        decreases w.len() - k,
    {
        if !flag_word(&w[k]) {
            assert(flags[k - k0] == w@[k as int]@);
            proof {
                let rest = ws.skip(1);
                let spec_flags = if k0 == 2 {
                    rest.skip(1)
                } else {
                    rest
                };
                assert(rest.len() > 0 ==> rest[0] == ws[1]);
                assert(spec_flags =~= flags);
                assert(!is_flag_word(spec_flags[k - k0]));
            }
            return None;
        }
        let ghost before = node_views(nodes@);
        let n = flag_word_node(&w[k]);
        nodes.push(n);
        k = k + 1;
        assert(flags.take(k - k0) =~= flags.take(k - 1 - k0).push(w@[k - 1]@));
        assert(node_views(nodes@) =~= before.push(n@));
        assert(node_views(nodes@) =~= first + flags.take(k - k0).map_values(|f: Seq<char>| flag_node(f)));
    }
    assert(flags.take(k - k0) =~= flags);
    assert(ws.skip(1).skip(k0 - 1) =~= flags);
    assert(k0 == 1 ==> ws.skip(1) =~= flags);
    Some(nodes)
}

} // verus!
