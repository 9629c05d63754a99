//! The client's decisions: what to do with a line the user typed, and what
//! to show for a reply.
use crate::protocol;
use crate::text;
use vstd::prelude::*;

verus! {

/// What the client does with a line the user typed.
#[derive(Debug, PartialEq, Eq)]
pub enum ClientAction {
    /// Nothing: the line is blank.
    Skip,
    /// Print the help text.
    Help,
    /// Send the line and leave.
    Quit,
    /// Send the line and show the reply.
    Send,
}

pub open spec fn client_action_spec(input: Seq<char>) -> ClientAction {
    let t = text::trim(input);
    if t.len() == 0 {
        ClientAction::Skip
    } else if text::eq_ignore_ascii_case(t, "help"@) {
        ClientAction::Help
    } else if text::eq_ignore_ascii_case(t, "quit"@) {
        ClientAction::Quit
    } else {
        ClientAction::Send
    }
}

/// Decides what to do with a line the user typed: `help` and `quit` in any
/// ASCII case, whitespace around them aside, are the client's own.
pub fn client_action(input: &str) -> (r: ClientAction)
    ensures
        r == client_action_spec(input@),
{
    let t = text::trim_string(input);
    if t.as_str().is_empty() {
        ClientAction::Skip
    } else if text::ascii_case_insensitive_eq(t.as_str(), "help") {
        ClientAction::Help
    } else if text::ascii_case_insensitive_eq(t.as_str(), "quit") {
        ClientAction::Quit
    } else {
        ClientAction::Send
    }
}

/// The text the client prints for a reply line: the rendering without its
/// trailing line feeds.
pub fn client_display(response: &str) -> (r: String)
    ensures
        r@ == text::strip_trailing(protocol::human_text(response@), '\n'),
{
    let h = protocol::format_response_for_human(response);
    text::strip_trailing_char(h.as_str(), '\n')
}

/// `t` spells a word letter by letter, each letter as in `lower` or as in
/// `upper`.
pub open spec fn spells_in_any_case(t: Seq<char>, lower: Seq<char>, upper: Seq<char>) -> bool {
    &&& t.len() == lower.len()
    &&& forall|i: int| 0 <= i < t.len() ==> #[trigger] t[i] == lower[i] || t[i] == upper[i]
}

proof fn lemma_letter_case(c: char, l: char, u: char)
    requires
        97 <= (l as u32) <= 122,
        (u as u32) + 32 == (l as u32),
    ensures
        (text::ascii_lower(c) == text::ascii_lower(l)) <==> (c == l || c == u),
{
    let n = c as u32;
    if 65 <= n <= 90 {
        let m: u32 = (n + 32) as u32;
        assert((m as char) as u32 == m);
        if c == u {
            assert(m == (l as u32));
            assert((m as char) == l);
        }
    }
}

/// The client keeps `help` and `quit` for itself: a line that is, once
/// trimmed, `help` in any mix of cases prints the help, one that is `quit`
/// in any mix of cases ends the session, and no other line does either. A
/// blank line is skipped; every other line goes to the server.
pub proof fn law_client_keeps_help_and_quit(input: Seq<char>)
    ensures
        (client_action_spec(input) == ClientAction::Help) == spells_in_any_case(
            text::trim(input),
            "help"@,
            "HELP"@,
        ),
        (client_action_spec(input) == ClientAction::Quit) == spells_in_any_case(
            text::trim(input),
            "quit"@,
            "QUIT"@,
        ),
        (client_action_spec(input) == ClientAction::Skip) == (text::trim(input).len() == 0),
{
    reveal_strlit("help");
    reveal_strlit("HELP");
    reveal_strlit("quit");
    reveal_strlit("QUIT");
    let t = text::trim(input);
    lemma_word_any_case(t, "help"@, "HELP"@);
    lemma_word_any_case(t, "quit"@, "QUIT"@);
    if spells_in_any_case(t, "quit"@, "QUIT"@) && spells_in_any_case(t, "help"@, "HELP"@) {
        assert(t[0] == "quit"@[0] || t[0] == "QUIT"@[0]);
        assert(t[0] == "help"@[0] || t[0] == "HELP"@[0]);
    }
}

proof fn lemma_word_any_case(t: Seq<char>, lower: Seq<char>, upper: Seq<char>)
    requires
        upper.len() == lower.len(),
        forall|i: int|
            0 <= i < lower.len() ==> 97 <= (#[trigger] lower[i] as u32) <= 122 && (upper[i] as u32)
                + 32 == (lower[i] as u32),
    ensures
        spells_in_any_case(t, lower, upper) <==> text::eq_ignore_ascii_case(t, lower),
{
    if t.len() == lower.len() {
        assert forall|i: int| 0 <= i < t.len() implies (text::ascii_lower(#[trigger] t[i])
            == text::ascii_lower(lower[i])) == (t[i] == lower[i] || t[i] == upper[i]) by {
            assert(97 <= (lower[i] as u32) <= 122);
            lemma_letter_case(t[i], lower[i], upper[i]);
        }
    }
}

} // verus!
