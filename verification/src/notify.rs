//! The reminder that a timer still runs.

use crate::text;
use vstd::prelude::*;

verus! {

/// Which button was pressed. Closing the reminder presses none: silence stays
/// silence.
#[derive(Debug, Clone, Copy, PartialEq, Eq, Structural)]
pub enum ToastAction {
    KeepGoing,
    Stop,
}

/// A character as XML text.
pub open spec fn xml_char(c: char) -> Seq<char> {
    if c == '&' {
        "&amp;"@
    } else if c == '<' {
        "&lt;"@
    } else if c == '>' {
        "&gt;"@
    } else if c == '"' {
        "&quot;"@
    } else {
        seq![c]
    }
}

/// A text as XML text.
pub open spec fn xml_text(s: Seq<char>) -> Seq<char>
    decreases s.len(),
{
    if s.len() == 0 {
        Seq::empty()
    } else {
        xml_text(s.drop_last()) + xml_char(s.last())
    }
}

/// A text as XML text.
pub fn xml_escape(s: &str) -> (r: String)
    ensures
        r@ == xml_text(s@),
{
    let v = text::chars_of(s);
    let mut out = String::new();
    let mut i: usize = 0;
    while i < v.len()
        invariant
            i <= v@.len(),
            out@ == xml_text(v@.take(i as int)),
        decreases v@.len() - i,
    {
        let c = v[i];
        let ghost before = out@;
        assert(v@.take(i + 1).drop_last() =~= v@.take(i as int));
        assert(v@.take(i + 1).last() == c);
        if c == '&' {
            text::push_text(&mut out, "&amp;");
        } else if c == '<' {
            text::push_text(&mut out, "&lt;");
        } else if c == '>' {
            text::push_text(&mut out, "&gt;");
        } else if c == '"' {
            text::push_text(&mut out, "&quot;");
        } else {
            out.push(c);
            assert(out@ =~= before + seq![c]);
        }
        i += 1;
    }
    assert(v@.take(v@.len() as int) =~= v@);
    out
}

/// What is worked on: the client, and the engagement where there is one.
pub open spec fn subject(client: Seq<char>, engagement: Seq<char>) -> Seq<char> {
    if engagement.len() == 0 {
        client
    } else {
        client + " \u{00b7} "@ + engagement
    }
}

/// The question.
pub open spec fn reminder_body(client: Seq<char>, engagement: Seq<char>) -> Seq<char> {
    "Still working on \u{201c}"@ + xml_text(subject(client, engagement))
        + "\u{201d}? It's been 4 hours. If you don't answer, the timer stops and logs in 1 hour."@
}

/// The reminder as the system takes it, with its two buttons.
pub open spec fn reminder_xml(client: Seq<char>, engagement: Seq<char>) -> Seq<char> {
    "<toast activationType=\"foreground\" launch=\"dismiss\" scenario=\"reminder\">\n  <visual>\n    <binding template=\"ToastGeneric\">\n      <text>Timer still running</text>\n      <text>"@
        + reminder_body(client, engagement)
        + "</text>\n    </binding>\n  </visual>\n  <actions>\n    <action content=\"Keep going\" arguments=\"keep\" activationType=\"foreground\"/>\n    <action content=\"Stop &amp; log\" arguments=\"stop\" activationType=\"foreground\"/>\n  </actions>\n</toast>"@
}

/// The reminder to show for a timer.
pub fn show_continuation_reminder(client: &str, engagement: &str) -> (r: String)
    ensures
        r@ == reminder_xml(client@, engagement@),
{
    let mut what = text::copy(client);
    if text::chars_of(engagement).len() > 0 {
        text::push_text(&mut what, " \u{00b7} ");
        text::push_text(&mut what, engagement);
    }
    assert(what@ =~= subject(client@, engagement@));
    let safe = xml_escape(what.as_str());
    let mut body = text::copy("Still working on \u{201c}");
    text::push_text(&mut body, safe.as_str());
    text::push_text(
        &mut body,
        "\u{201d}? It's been 4 hours. If you don't answer, the timer stops and logs in 1 hour.",
    );
    let mut out = text::copy(
        "<toast activationType=\"foreground\" launch=\"dismiss\" scenario=\"reminder\">\n  <visual>\n    <binding template=\"ToastGeneric\">\n      <text>Timer still running</text>\n      <text>",
    );
    text::push_text(&mut out, body.as_str());
    text::push_text(
        &mut out,
        "</text>\n    </binding>\n  </visual>\n  <actions>\n    <action content=\"Keep going\" arguments=\"keep\" activationType=\"foreground\"/>\n    <action content=\"Stop &amp; log\" arguments=\"stop\" activationType=\"foreground\"/>\n  </actions>\n</toast>",
    );
    out
}

/// The button that an answer names; none for anything else.
pub fn toast_action(argument: &str) -> (r: Option<ToastAction>)
    ensures
        r == if argument@ == "keep"@ {
            Some(ToastAction::KeepGoing)
        } else if argument@ == "stop"@ {
            Some(ToastAction::Stop)
        } else {
            None
        },
{
    if text::same_text(argument, "keep") {
        Some(ToastAction::KeepGoing)
    } else if text::same_text(argument, "stop") {
        Some(ToastAction::Stop)
    } else {
        None
    }
}

// ---- laws -----------------------------------------------------------------

/// A text in the reminder holds no mark of its own: whatever the names are, the
/// reminder stays the one that is meant.
pub proof fn escaped_text_holds_no_marks(s: Seq<char>)
    ensures
        !xml_text(s).contains('<'),
        !xml_text(s).contains('>'),
        !xml_text(s).contains('"'),
    decreases s.len(),
{
    if s.len() > 0 {
        escaped_text_holds_no_marks(s.drop_last());
        reveal_strlit("&amp;");
        reveal_strlit("&lt;");
        reveal_strlit("&gt;");
        reveal_strlit("&quot;");
        let a = xml_text(s.drop_last());
        let b = xml_char(s.last());
        assert forall|x: char| xml_text(s).contains(x) implies a.contains(x) || b.contains(x) by {
            let k = choose|k: int| 0 <= k < xml_text(s).len() && xml_text(s)[k] == x;
            if k < a.len() {
                assert(a[k] == x);
            } else {
                assert(b[k - a.len()] == x);
            }
        }
    }
}

/// A text is escaped character by character: four marks are named, and every other
/// character stands for itself.
pub proof fn marks_are_named(s: Seq<char>, c: char)
    ensures
        xml_text(Seq::empty()) == Seq::<char>::empty(),
        xml_text(s.push(c)) == xml_text(s) + if c == '&' {
            seq!['&', 'a', 'm', 'p', ';']
        } else if c == '<' {
            seq!['&', 'l', 't', ';']
        } else if c == '>' {
            seq!['&', 'g', 't', ';']
        } else if c == '"' {
            seq!['&', 'q', 'u', 'o', 't', ';']
        } else {
            seq![c]
        },
{
    assert(s.push(c).drop_last() =~= s);
    reveal_strlit("&amp;");
    reveal_strlit("&lt;");
    reveal_strlit("&gt;");
    reveal_strlit("&quot;");
    assert("&amp;"@ =~= seq!['&', 'a', 'm', 'p', ';']);
    assert("&lt;"@ =~= seq!['&', 'l', 't', ';']);
    assert("&gt;"@ =~= seq!['&', 'g', 't', ';']);
    assert("&quot;"@ =~= seq!['&', 'q', 'u', 'o', 't', ';']);
}

/// What is asked about is the client, and with an engagement both, with a dot between.
pub proof fn reminders_name_client_and_engagement(client: Seq<char>, engagement: Seq<char>)
    ensures
        engagement.len() == 0 ==> subject(client, engagement) == client,
        engagement.len() > 0 ==> subject(client, engagement) == client + seq![' ', '\u{b7}', ' ']
            + engagement,
{
    reveal_strlit(" \u{00b7} ");
    assert(" \u{00b7} "@ =~= seq![' ', '\u{b7}', ' ']);
}

/// The reminder asks about the client and the engagement, with their marks named, and
/// tells that it comes after four hours and that the timer stops an hour later.
pub proof fn reminders_ask_about_the_work(client: Seq<char>, engagement: Seq<char>)
    ensures
        reminder_body(client, engagement) == "Still working on \u{201c}"@ + xml_text(
            subject(client, engagement),
        )
            + "\u{201d}? It's been 4 hours. If you don't answer, the timer stops and logs in 1 hour."@,
{
}

} // verus!
