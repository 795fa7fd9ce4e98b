//! The walk over recognized nodes that builds a [`ParsedCommand`], and the
//! entry point [`parse_command`].
use vstd::prelude::*;
use crate::errors::CommandError;
use crate::flags::FlagMap;
use crate::grammar::{
    all_verb_chars, node_views, opt_view, recognize, recognize_spec, words, Node, NodeView,
};
use crate::text::{chars_of, is_space, is_verb_char};

verus! {

/// A parsed command: a verb, an optional target and flags.
#[derive(Debug, PartialEq)]
pub struct ParsedCommand {
    /// The main verb of the command (`cast` in `/cast fireball`).
    pub verb: String,
    /// The optional target of the command (`fireball` in `/cast fireball`).
    pub target: Option<String>,
    /// The flags of the command (`power` to `high` for `--power=high`).
    pub flags: FlagMap,
}

/// What a [`ParsedCommand`] holds.
pub struct CommandView {
    pub verb: Seq<char>,
    pub target: Option<Seq<char>>,
    pub flags: Map<Seq<char>, Seq<char>>,
}

impl View for ParsedCommand {
    type V = CommandView;

    open spec fn view(&self) -> CommandView {
        CommandView { verb: self.verb@, target: opt_view(self.target), flags: self.flags@ }
    }
}

/// `k` holds `--` somewhere.
pub open spec fn has_double_dash(k: Seq<char>) -> bool {
    exists|i: int| 0 <= i < k.len() - 1 && #[trigger] k[i] == '-' && k[i + 1] == '-'
}

/// A flag key is non-empty, does not begin with `=` and holds no `--`.
pub open spec fn valid_key(k: Seq<char>) -> bool {
    k.len() > 0 && k[0] != '=' && !has_double_dash(k)
}

/// The state of the walk before any node.
pub open spec fn empty_command() -> CommandView {
    CommandView { verb: seq![], target: None, flags: Map::empty() }
}

/// One step of the walk: the state after node `n`, or the error it raises.
pub open spec fn step(st: CommandView, n: NodeView) -> Result<CommandView, CommandError> {
    match n {
        NodeView::Verb(v) => Ok(CommandView { verb: v, target: st.target, flags: st.flags }),
        NodeView::Target(t) => Ok(CommandView { verb: st.verb, target: Some(t), flags: st.flags }),
        NodeView::Flag { key, value } => match key {
            None => Err(CommandError::MissingFlagKey),
            Some(k) => if !valid_key(k) {
                Err(CommandError::MissingFlagKey)
            } else {
                match value {
                    None => Err(CommandError::MissingFlagValue),
                    Some(v) => if v.len() == 0 {
                        Err(CommandError::MissingFlagValue)
                    } else {
                        Ok(
                            CommandView {
                                verb: st.verb,
                                target: st.target,
                                flags: st.flags.insert(k, v),
                            },
                        )
                    },
                }
            },
        },
        NodeView::BadFlag(_) => Err(CommandError::InvalidSyntax),
    }
}

/// The walk over `nodes` in order; it stops at the first error.
pub open spec fn walk(nodes: Seq<NodeView>) -> Result<CommandView, CommandError>
    decreases nodes.len(),
{
    if nodes.len() == 0 {
        Ok(empty_command())
    } else {
        match walk(nodes.drop_last()) {
            Ok(st) => step(st, nodes.last()),
            Err(e) => Err(e),
        }
    }
}

/// The command that `nodes` denote: the walk's result, where a command
/// without a verb is an error.
pub open spec fn extract_spec(nodes: Seq<NodeView>) -> Result<CommandView, CommandError> {
    match walk(nodes) {
        Ok(c) => if c.verb.len() == 0 {
            Err(CommandError::MissingVerb)
        } else {
            Ok(c)
        },
        Err(e) => Err(e),
    }
}

/// The result of parsing the line `s`.
pub open spec fn parse_spec(s: Seq<char>) -> Result<CommandView, CommandError> {
    match recognize_spec(s) {
        None => Err(CommandError::InvalidSyntax),
        Some(nodes) => extract_spec(nodes),
    }
}

/// What a parse result holds.
pub open spec fn result_view(r: Result<ParsedCommand, CommandError>) -> Result<
    CommandView,
    CommandError,
> {
    match r {
        Ok(c) => Ok(c@),
        Err(e) => Err(e),
    }
}

proof fn lemma_walk_error_stays(nodes: Seq<NodeView>, i: int)
    requires
        0 <= i <= nodes.len(),
        walk(nodes.take(i)) is Err,
    ensures
        walk(nodes) == walk(nodes.take(i)),
    decreases nodes.len() - i,
{
    if i < nodes.len() {
        assert(nodes.take(i + 1).drop_last() =~= nodes.take(i));
        lemma_walk_error_stays(nodes, i + 1);
    } else {
        assert(nodes.take(i) =~= nodes);
    }
}

/// Whether `k` may stand as a flag key.
fn key_is_valid(k: &String) -> (r: bool)
    ensures
        r == valid_key(k@),
{
    let c = chars_of(k.as_str());
    if c.len() == 0 || c[0] == '=' {
        return false;
    }
    let mut i: usize = 0;
    while i + 1 < c.len()
        invariant
            i < c@.len(),
            c@ == k@,
            forall|j: int| 0 <= j < i ==> !(#[trigger] c@[j] == '-' && c@[j + 1] == '-'),
        decreases c.len() - i,
    {
        if c[i] == '-' && c[i + 1] == '-' {
            return false;
        }
        i = i + 1;
    }
    true
}

/// Walks `nodes` in order and builds the command they denote.
pub fn extract(nodes: &Vec<Node>) -> (r: Result<ParsedCommand, CommandError>)
    ensures
        result_view(r) == extract_spec(node_views(nodes@)),
{
    let ghost views = node_views(nodes@);
    let mut verb = String::new();
    let mut target: Option<String> = None;
    let mut flags = FlagMap::new();
    let mut i: usize = 0;
    assert(views.take(0) =~= Seq::<NodeView>::empty());
    while i < nodes.len()
        invariant
            i <= nodes@.len(),
            views == node_views(nodes@),
            walk(views.take(i as int)) == Ok::<CommandView, CommandError>(
                CommandView { verb: verb@, target: opt_view(target), flags: flags@ },
            ),
        decreases nodes.len() - i,
    {
        let ghost st = CommandView { verb: verb@, target: opt_view(target), flags: flags@ };
        assert(views.take(i + 1).drop_last() =~= views.take(i as int));
        assert(views.take(i + 1).last() == nodes@[i as int]@);
        match &nodes[i] {
            Node::Verb(v) => {
                verb = v.clone();
            },
            Node::Target(t) => {
                target = Some(t.clone());
            },
            Node::Flag { key, value } => {
                match key {
                    None => {
                        proof {
                            lemma_walk_error_stays(views, i + 1);
                        }
                        return Err(CommandError::MissingFlagKey);
                    },
                    Some(k) => {
                        if !key_is_valid(k) {
                            proof {
                                lemma_walk_error_stays(views, i + 1);
                            }
                            return Err(CommandError::MissingFlagKey);
                        }
                        match value {
                            None => {
                                proof {
                                    lemma_walk_error_stays(views, i + 1);
                                }
                                return Err(CommandError::MissingFlagValue);
                            },
                            Some(v) => {
                                if v.as_str().is_empty() {
                                    proof {
                                        lemma_walk_error_stays(views, i + 1);
                                    }
                                    return Err(CommandError::MissingFlagValue);
                                }
                                flags.insert(k.clone(), v.clone());
                            },
                        }
                    },
                }
            },
            Node::BadFlag(_) => {
                proof {
                    lemma_walk_error_stays(views, i + 1);
                }
                return Err(CommandError::InvalidSyntax);
            },
        }
        i = i + 1;
    }
    assert(views.take(i as int) =~= views);
    if verb.as_str().is_empty() {
        return Err(CommandError::MissingVerb);
    }
    Ok(ParsedCommand { verb, target, flags })
}

/// Parses one line into a command.
///
/// A line that does not match the command grammar gives `InvalidSyntax`;
/// otherwise its nodes are walked left to right and the first error met is
/// returned, with `MissingVerb` checked last.
pub fn parse_command(input: &str) -> (r: Result<ParsedCommand, CommandError>)
    ensures
        result_view(r) == parse_spec(input@),
{
    match recognize(input) {
        None => Err(CommandError::InvalidSyntax),
        Some(nodes) => extract(&nodes),
    }
}

/// Parsing is a function of the line alone: two results that both meet the
/// contract of [`parse_command`] for the same line are the same command, or
/// the same error.
pub proof fn lemma_parse_repeatable(
    input: Seq<char>,
    first: Result<ParsedCommand, CommandError>,
    second: Result<ParsedCommand, CommandError>,
)
    requires
        result_view(first) == parse_spec(input),
        result_view(second) == parse_spec(input),
    ensures
        result_view(first) == result_view(second),
        first is Ok <==> second is Ok,
        first is Err ==> first == second,
{
}

/// An empty line, or one of spaces only, is no command.
pub proof fn lemma_blank_line_rejected(s: Seq<char>)
    requires
        forall|i: int| 0 <= i < s.len() ==> is_space(#[trigger] s[i]),
    ensures
        parse_spec(s) == Err::<CommandView, CommandError>(CommandError::InvalidSyntax),
{
    if s.len() > 0 {
        assert(is_space(s[0]));
    }
}

proof fn lemma_first_word(x: Seq<char>)
    requires
        x.len() > 0,
        !is_space(x[0]),
    ensures
        words(x).len() > 0,
        words(x)[0].len() > 0,
        words(x)[0][0] == x[0],
    decreases x.len(),
{
    let d = x.drop_last();
    let c = x.last();
    if x.len() == 1 {
        assert(words(d) =~= Seq::<Seq<char>>::empty());
        assert(words(x) == words(d).push(seq![c]));
    } else {
        lemma_first_word(d);
        let w = words(d);
        assert(d[0] == x[0]);
        if is_space(c) {
            assert(words(x) == w);
        } else if !is_space(x[x.len() - 2]) {
            let u = w.update(w.len() - 1, w.last().push(c));
            assert(words(x) == u);
            if w.len() == 1 {
                assert(u[0] == w[0].push(c));
            } else {
                assert(u[0] == w[0]);
            }
        } else {
            assert(words(x) == w.push(seq![c]));
            assert(w.push(seq![c])[0] == w[0]);
        }
    }
}

/// A line that does not begin with `/` directly followed by a verb character
/// is no command, whatever flags follow.
pub proof fn lemma_no_leading_verb_rejected(s: Seq<char>)
    requires
        s.len() < 2 || s[0] != '/' || !is_verb_char(s[1]),
    ensures
        parse_spec(s) == Err::<CommandView, CommandError>(CommandError::InvalidSyntax),
{
    if s.len() >= 2 && s[0] == '/' && !is_space(s[1]) {
        lemma_first_word(s.drop_first());
        let verb = words(s.drop_first())[0];
        assert(!is_verb_char(verb[0]));
        assert(!all_verb_chars(verb));
    }
}

proof fn lemma_walk_flags_valid(nodes: Seq<NodeView>)
    requires
        walk(nodes) is Ok,
    ensures
        forall|k: Seq<char>| #[trigger]
            walk(nodes)->Ok_0.flags.contains_key(k) ==> valid_key(k)
                && walk(nodes)->Ok_0.flags[k].len() > 0,
    decreases nodes.len(),
{
    if nodes.len() > 0 {
        lemma_walk_flags_valid(nodes.drop_last());
    }
}

/// A parsed command has a non-empty verb, and each of its flags has a valid
/// key and a non-empty value.
pub proof fn lemma_parsed_command_well_formed(s: Seq<char>)
    requires
        parse_spec(s) is Ok,
    ensures
        parse_spec(s)->Ok_0.verb.len() > 0,
        forall|k: Seq<char>| #[trigger]
            parse_spec(s)->Ok_0.flags.contains_key(k) ==> valid_key(k)
                && parse_spec(s)->Ok_0.flags[k].len() > 0,
{
    lemma_walk_flags_valid(recognize_spec(s)->Some_0);
}

} // verus!
