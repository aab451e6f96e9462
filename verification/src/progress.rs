//! Reading the progress messages of an extraction.

use vstd::prelude::*;
use vstd::string::{StrSliceExecFns, StringExecFns};

use crate::text::{
    chars_of, find, find_text, lemma_find_from, occurs_at, strip, stripped, CharClass,
};

verus! {

/// What a progress message says.
pub struct ProgressUpdate {
    /// The percentage, as the message writes it.
    pub percent: String,
    /// The speed with its unit.
    pub speed: String,
    /// The time left.
    pub eta: String,
    /// The whole message.
    pub status: String,
}

/// The texts of a progress update.
pub struct ProgressView {
    pub percent: Seq<char>,
    pub speed: Seq<char>,
    pub eta: Seq<char>,
    pub status: Seq<char>,
}

impl View for ProgressUpdate {
    type V = ProgressView;

    open spec fn view(&self) -> ProgressView {
        ProgressView {
            percent: self.percent@,
            speed: self.speed@,
            eta: self.eta@,
            status: self.status@,
        }
    }
}

/// The part of a text between two places, without the white space around it.
pub open spec fn trimmed(s: Seq<char>, from: int, to: int) -> Seq<char> {
    stripped(s.subrange(from, to), CharClass::Space)
}

/// The speed stands between `Speed:` and `MB/s`; without both of them it is `0.00`.
pub open spec fn speed_text(msg: Seq<char>) -> Seq<char> {
    match (find_text(msg, "Speed:"@), find_text(msg, "MB/s"@)) {
        (Some(from), Some(to)) => trimmed(msg, from + 6, to),
        _ => "0.00"@,
    }
}

/// The time left stands between `ETA:` and the bar behind it; without both of them it is `--:--`.
pub open spec fn eta_text(msg: Seq<char>) -> Seq<char> {
    match find_text(msg, "ETA:"@) {
        Some(from) => {
            let rest = msg.skip(from + 4);
            match find_text(rest, "|"@) {
                Some(to) => trimmed(rest, 0, to),
                None => "--:--"@,
            }
        },
        None => "--:--"@,
    }
}

/// What a message says, once the quotes around it are off: something if it has a bracket and a
/// percent sign.
pub open spec fn progress_of(message: Seq<char>) -> Option<ProgressView> {
    let msg = stripped(message, CharClass::Quote);
    match (find_text(msg, "["@), find_text(msg, "%"@)) {
        (Some(from), Some(to)) => Some(
            ProgressView {
                percent: trimmed(msg, from + 1, to),
                speed: speed_text(msg) + " MB/s"@,
                eta: eta_text(msg),
                status: msg,
            },
        ),
        _ => None,
    }
}

/// What the message holds stands in order: the percent sign behind the bracket, and, where there
/// are both, `MB/s` behind `Speed:`.
pub open spec fn is_ordered(message: Seq<char>) -> bool {
    let msg = stripped(message, CharClass::Quote);
    match (find_text(msg, "["@), find_text(msg, "%"@)) {
        (Some(from), Some(to)) => {
            &&& from + 1 <= to
            &&& match (find_text(msg, "Speed:"@), find_text(msg, "MB/s"@)) {
                (Some(a), Some(b)) => a + 6 <= b,
                _ => true,
            }
        },
        _ => true,
    }
}

/// The part of a text between two places, without the white space around it.
fn trim_between(s: &str, from: usize, to: usize) -> (res: String)
    requires
        from <= to <= s@.len(),
    ensures
        res@ == trimmed(s@, from as int, to as int),
{
    strip(s.substring_char(from, to), CharClass::Space).to_owned()
}

/// The first place of `needle`, with what is known of places in a text.
fn find_in(chars: &Vec<char>, needle: &str) -> (res: Option<usize>)
    ensures
        match res {
            Some(i) => find_text(chars@, needle@) == Some(i as int) && i + needle@.len()
                <= chars@.len(),
            None => find_text(chars@, needle@) is None,
        },
{
    proof {
        lemma_find_from(chars@, needle@, 0);
    }
    find(chars, needle)
}

/// Whether what the message holds stands in order.
pub fn is_in_order(message: &str) -> (res: bool)
    ensures
        res == is_ordered(message@),
{
    let msg = strip(message, CharClass::Quote);
    let chars = chars_of(msg);
    proof {
        reveal_strlit("[");
        reveal_strlit("Speed:");
    }
    match (find_in(&chars, "["), find_in(&chars, "%")) {
        (Some(from), Some(to)) => {
            if from >= to {
                return false;
            }
            match (find_in(&chars, "Speed:"), find_in(&chars, "MB/s")) {
                (Some(a), Some(b)) => a <= b && b - a >= 6,
                _ => true,
            }
        },
        _ => true,
    }
}

/// What a message says.
pub fn parse_progress(message: &str) -> (res: Option<ProgressUpdate>)
    requires
        is_ordered(message@),
    ensures
        match res {
            Some(update) => progress_of(message@) == Some(update@),
            None => progress_of(message@) is None,
        },
{
    let msg = strip(message, CharClass::Quote);
    let chars = chars_of(msg);
    proof {
        reveal_strlit("[");
        reveal_strlit("Speed:");
        reveal_strlit("ETA:");
    }
    let (from, to) = match (find_in(&chars, "["), find_in(&chars, "%")) {
        (Some(from), Some(to)) => (from, to),
        _ => {
            return None;
        },
    };
    let percent = trim_between(msg, from + 1, to);
    let mut speed = match (find_in(&chars, "Speed:"), find_in(&chars, "MB/s")) {
        (Some(a), Some(b)) => trim_between(msg, a + 6, b),
        _ => "0.00".to_owned(),
    };
    speed.append(" MB/s");
    let eta = match find_in(&chars, "ETA:") {
        Some(a) => {
            let rest = msg.substring_char(a + 4, chars.len());
            assert(rest@ == msg@.skip(a + 4));
            let rest_chars = chars_of(rest);
            match find_in(&rest_chars, "|") {
                Some(b) => trim_between(rest, 0, b),
                None => "--:--".to_owned(),
            }
        },
        None => "--:--".to_owned(),
    };
    Some(ProgressUpdate { percent, speed, eta, status: msg.to_owned() })
}

proof fn lemma_first_char(s: Seq<char>, needle: Seq<char>, c: char, k: int)
    requires
        needle == seq![c],
        0 <= k < s.len(),
        s[k] == c,
        forall|j: int| 0 <= j < k ==> s[j] != c,
    ensures
        find_text(s, needle) == Some(k),
{
    lemma_find_from(s, needle, 0);
    assert(s.subrange(k, k + needle.len()) == needle);
    assert(occurs_at(s, needle, k));
    if let Some(i) = find_text(s, needle) {
        assert(s.subrange(i, i + needle.len())[0] == s[i]);
        assert(needle[0] == c);
    }
}

/// What stands between the first bracket and the first percent sign behind it is the percentage,
/// and the message itself is the status.
pub proof fn law_percentage_of_message(
    head: Seq<char>,
    percent: Seq<char>,
    tail: Seq<char>,
)
    requires
        !head.contains('[') && !head.contains('%') && !percent.contains('%'),
        head.len() > 0 ==> head[0] != '"',
        tail.len() > 0 ==> tail.last() != '"',
    ensures
        progress_of(head + seq!['['] + percent + seq!['%'] + tail) matches Some(update)
            && update.percent == stripped(percent, CharClass::Space) && update.status == head
            + seq!['['] + percent + seq!['%'] + tail,
{
    let msg = head + seq!['['] + percent + seq!['%'] + tail;
    let from = head.len() as int;
    let to = from + 1 + percent.len();
    assert(msg[from] == '[' && msg[to] == '%');
    assert(msg[0] == if head.len() > 0 { head[0] } else { '[' });
    assert(msg.last() == if tail.len() > 0 { tail.last() } else { '%' });
    assert(stripped(msg, CharClass::Quote) == msg);
    assert forall|j: int| 0 <= j < from implies msg[j] != '[' && msg[j] != '%' by {
        assert(msg[j] == head[j]);
    }
    assert forall|j: int| from < j < to implies msg[j] != '%' by {
        assert(msg[j] == percent[j - from - 1]);
    }
    reveal_strlit("[");
    reveal_strlit("%");
    assert("["@ == seq!['['] && "%"@ == seq!['%']);
    lemma_first_char(msg, "["@, '[', from);
    lemma_first_char(msg, "%"@, '%', to);
    assert(msg.subrange(from + 1, to) == percent);
}

/// A message says something exactly if, without the quotes around it, it holds a bracket and a
/// percent sign.
pub proof fn law_progress_needs_bracket_and_sign(message: Seq<char>)
    ensures
        progress_of(message) is Some <==> {
            let msg = stripped(message, CharClass::Quote);
            msg.contains('[') && msg.contains('%')
        },
        progress_of(message) matches Some(update) ==> update.status == stripped(
            message,
            CharClass::Quote,
        ),
{
    let msg = stripped(message, CharClass::Quote);
    lemma_char_is_found(msg, "["@, '[');
    lemma_char_is_found(msg, "%"@, '%');
}

proof fn lemma_char_is_found(s: Seq<char>, needle: Seq<char>, c: char)
    requires
        (needle == "["@ && c == '[') || (needle == "%"@ && c == '%') || (needle == "|"@ && c == '|'),
    ensures
        find_text(s, needle) is Some <==> s.contains(c),
{
    reveal_strlit("[");
    reveal_strlit("%");
    reveal_strlit("|");
    assert(needle =~= seq![c]);
    lemma_find_from(s, needle, 0);
    if let Some(i) = find_text(s, needle) {
        assert(s.subrange(i, i + needle.len())[0] == s[i]);
        assert(needle[0] == c);
    }
    if s.contains(c) {
        let k = choose|k: int| 0 <= k < s.len() && s[k] == c;
        assert(s.subrange(k, k + needle.len()) =~= needle);
        assert(occurs_at(s, needle, k));
    }
}

/// The speed of a message that says something is what stands between the first `Speed:` and the
/// first `MB/s`, without the white space around it; where one of them is missing it is `0.00`. The
/// unit follows it.
pub proof fn law_speed_of_message(message: Seq<char>, from: int, to: int)
    requires
        progress_of(message) is Some,
    ensures
        ({
            let msg = stripped(message, CharClass::Quote);
            let speed = progress_of(message)->0.speed;
            &&& find_text(msg, "Speed:"@) == Some(from) && find_text(msg, "MB/s"@) == Some(to)
                ==> speed == stripped(msg.subrange(from + 6, to), CharClass::Space) + " MB/s"@
            &&& find_text(msg, "Speed:"@) is None || find_text(msg, "MB/s"@) is None ==> speed
                == "0.00"@ + " MB/s"@
        }),
{
}

/// The time left of a message that says something is what stands between the first `ETA:` and the
/// first bar behind it, without the white space around it; where one of them is missing it is
/// `--:--`.
pub proof fn law_time_left_of_message(message: Seq<char>, from: int, time: Seq<char>, tail: Seq<char>)
    requires
        progress_of(message) is Some,
    ensures
        ({
            let msg = stripped(message, CharClass::Quote);
            let eta = progress_of(message)->0.eta;
            &&& find_text(msg, "ETA:"@) == Some(from) && !time.contains('|') && msg.skip(from + 4)
                == time + seq!['|'] + tail ==> eta == stripped(time, CharClass::Space)
            &&& find_text(msg, "ETA:"@) == Some(from) && !msg.skip(from + 4).contains('|') ==> eta
                == "--:--"@
            &&& find_text(msg, "ETA:"@) is None ==> eta == "--:--"@
        }),
{
    let msg = stripped(message, CharClass::Quote);
    if find_text(msg, "ETA:"@) == Some(from) {
        let rest = msg.skip(from + 4);
        lemma_char_is_found(rest, "|"@, '|');
        if !time.contains('|') && rest == time + seq!['|'] + tail {
            let k = time.len() as int;
            reveal_strlit("|");
            assert("|"@ =~= seq!['|']);
            assert(rest[k] == '|');
            assert forall|j: int| 0 <= j < k implies rest[j] != '|' by {
                assert(rest[j] == time[j]);
            }
            lemma_first_char(rest, "|"@, '|', k);
            assert(rest.subrange(0, k) =~= time);
        }
    }
}

/// The view of an update leaves nothing out.
pub proof fn law_update_view_is_faithful(update: ProgressUpdate)
    ensures
        update@.percent == update.percent@,
        update@.speed == update.speed@,
        update@.eta == update.eta@,
        update@.status == update.status@,
{
}

/// A message is in order if it says nothing, or if its first percent sign is behind its first
/// bracket and it has no speed, or one whose unit is behind it.
pub proof fn law_messages_in_order(message: Seq<char>, from: int, to: int)
    ensures
        ({
            let msg = stripped(message, CharClass::Quote);
            let bracket = find_text(msg, "["@);
            let sign = find_text(msg, "%"@);
            let speed = find_text(msg, "Speed:"@);
            let unit = find_text(msg, "MB/s"@);
            &&& progress_of(message) is None ==> is_ordered(message)
            &&& bracket == Some(from) && sign == Some(to) && from < to && (speed is None
                || unit is None || speed->0 + 6 <= unit->0) ==> is_ordered(message)
        }),
{
}

} // verus!
