//! Where turns come from.

use vstd::prelude::*;

use crate::machine::token::TokenId;
use crate::text;
use crate::machine::state;

verus! {

/// A source of turns.
pub trait TurnSource {
    /// The next turn, where there is one.
    fn next_turn(&mut self) -> (turn: Option<Vec<TokenId>>);
}

/// A source that replays a script.
#[derive(Clone, Debug, PartialEq, Eq)]
pub struct StubLlm {
    script: Vec<Vec<TokenId>>,
    at: usize,
}

/// The views of a list of turns.
pub open spec fn script_views(script: Seq<Vec<u32>>) -> Seq<Seq<u32>> {
    script.map_values(|t: Vec<u32>| t@)
}

impl StubLlm {
    /// The turns that are still to come.
    pub closed spec fn ahead(&self) -> Seq<Seq<u32>> {
        if self.at <= self.script@.len() {
            script_views(self.script@).skip(self.at as int)
        } else {
            Seq::empty()
        }
    }

    /// A source that replays the turns of a script, in order.
    pub fn new(script: Vec<Vec<TokenId>>) -> (s: StubLlm)
        ensures
            s.ahead() == script_views(script@),
    {
        let s = StubLlm { script, at: 0 };
        proof {
            assert(s.ahead() =~= script_views(script@));
        }
        s
    }

    /// A source that replays the turns of a script, in order.
    pub fn with_script(script: &[&[TokenId]]) -> (s: StubLlm)
        ensures
            s.ahead() == script@.map_values(|t: &[u32]| t@),
    {
        let mut turns: Vec<Vec<TokenId>> = Vec::new();
        let mut i: usize = 0;
        while i < script.len()
            invariant
                i <= script@.len(),
                turns@.len() == i,
                forall|j: int| 0 <= j < i ==> (#[trigger] turns@[j])@ == script@[j]@,
            decreases script.len() - i,
        {
            turns.push(vstd::slice::slice_to_vec(script[i]));
            i = i + 1;
        }
        proof {
            assert(script_views(turns@) =~= script@.map_values(|t: &[u32]| t@));
        }
        StubLlm::new(turns)
    }
}

impl TurnSource for StubLlm {
    fn next_turn(&mut self) -> (turn: Option<Vec<TokenId>>)
        ensures
            turn is Some <==> old(self).ahead().len() > 0,
            turn is Some ==> turn->0@ == old(self).ahead()[0] && final(self).ahead() == old(self).ahead().skip(1),
            turn is None ==> final(self).ahead() == old(self).ahead(),
    {
        let ghost ahead = self.ahead();
        if self.at < self.script.len() {
            let turn = vstd::slice::slice_to_vec(self.script[self.at].as_slice());
            self.at = self.at + 1;
            proof {
                assert(self.ahead() =~= ahead.skip(1));
            }
            Some(turn)
        } else {
            None
        }
    }
}

/// The turns of a script; turns without anything but space are passed over.
pub open spec fn script_among(turns: Seq<Seq<char>>) -> Option<Seq<Seq<u32>>>
    decreases turns.len(),
{
    if turns.len() == 0 {
        Some(Seq::empty())
    } else {
        match script_among(turns.drop_last()) {
            None => None,
            Some(earlier) => if text::trimmed(turns.last()).len() == 0 {
                Some(earlier)
            } else {
                match state::ids_among(text::pieces(turns.last(), ',')) {
                    Some(ids) => Some(earlier.push(ids)),
                    None => None,
                }
            },
        }
    }
}

/// The turns of a script: parted by semicolons, their ids by commas.
pub open spec fn script_of_text(script: Seq<char>) -> Option<Seq<Seq<u32>>> {
    script_among(text::pieces(script, ';'))
}

/// Where the first turns hold something else than ids, so does the script.
proof fn none_of_script(turns: Seq<Seq<char>>, n: int)
    requires
        0 <= n <= turns.len(),
        script_among(turns.take(n)) is None,
    ensures
        script_among(turns) is None,
    decreases turns.len() - n,
{
    if n == turns.len() {
        assert(turns.take(n) =~= turns);
    } else {
        assert(turns.take(n + 1).drop_last() =~= turns.take(n));
        none_of_script(turns, n + 1);
    }
}

/// Reads a script, such as `1,2,3;2,3,4`; nothing where a part is no id.
pub fn parse_script(script: &str) -> (turns: Option<Vec<Vec<TokenId>>>)
    ensures
        turns is Some <==> script_of_text(script@) is Some,
        turns is Some ==> script_views(turns->0@) == script_of_text(script@)->0,
{
    let chars = text::chars_of(script);
    let parts = text::split_pieces(chars.as_slice(), ';');
    let ghost all = text::pieces(script@, ';');
    let mut turns: Vec<Vec<TokenId>> = Vec::new();
    let mut i: usize = 0;
    while i < parts.len()
        invariant
            i <= parts@.len(),
            all == text::pieces(script@, ';'),
            text::word_views(parts@) == all,
            script_among(all.take(i as int)) == Some(script_views(turns@)),
        decreases parts.len() - i,
    {
        let ghost before = turns@;
        proof {
            assert(all[i as int] == parts@[i as int]@);
            assert(all.take(i as int + 1).drop_last() =~= all.take(i as int));
            assert(all.take(i as int + 1).last() == all[i as int]);
        }
        if text::trim(parts[i].as_slice()).len() > 0 {
            let ids = text::split_pieces(parts[i].as_slice(), ',');
            match state::read_ids(&ids) {
                Some(turn) => {
                    turns.push(turn);
                    proof {
                        assert(script_views(turns@) =~= script_views(before).push(turn@));
                    }
                },
                None => {
                    proof {
                        none_of_script(all, i as int + 1);
                    }
                    return None;
                },
            }
        }
        i = i + 1;
    }
    proof {
        assert(all.take(i as int) =~= all);
    }
    Some(turns)
}

/// A script is read back as it was written: turns parted by semicolons, the ids of a
/// turn in decimal parted by commas.
pub proof fn script_round_trip(turns: Seq<Seq<u32>>)
    requires
        turns.len() > 0,
        forall|i: int| 0 <= i < turns.len() ==> (#[trigger] turns[i]).len() > 0,
    ensures
        script_of_text(
            text::joined(turns.map_values(|t: Seq<u32>| text::joined(state::id_numbers(t), seq![','])), seq![';']),
        ) == Some(turns),
{
    let parts = turns.map_values(|t: Seq<u32>| text::joined(state::id_numbers(t), seq![',']));
    assert forall|i: int| 0 <= i < parts.len() implies text::lacks(#[trigger] parts[i], ';') by {
        numbers_plain(turns[i]);
    }
    text::pieces_of_joined(parts, ';');
    script_parts(turns);
}

proof fn script_parts(turns: Seq<Seq<u32>>)
    requires
        forall|i: int| 0 <= i < turns.len() ==> (#[trigger] turns[i]).len() > 0,
    ensures
        script_among(turns.map_values(|t: Seq<u32>| text::joined(state::id_numbers(t), seq![',']))) == Some(turns),
    decreases turns.len(),
{
    let parts = turns.map_values(|t: Seq<u32>| text::joined(state::id_numbers(t), seq![',']));
    if turns.len() == 0 {
        assert(turns =~= Seq::empty());
    } else {
        let front = turns.drop_last();
        let last = turns.last();
        assert(turns[turns.len() - 1].len() > 0);
        assert forall|i: int| 0 <= i < front.len() implies (#[trigger] front[i]).len() > 0 by {
            assert(front[i] == turns[i]);
        }
        script_parts(front);
        assert(parts.drop_last() =~= front.map_values(|t: Seq<u32>| text::joined(state::id_numbers(t), seq![','])));
        assert(parts.last() == text::joined(state::id_numbers(last), seq![',']));
        numbers_plain(last);
        let numbers = state::id_numbers(last);
        assert forall|i: int| 0 <= i < numbers.len() implies text::lacks(#[trigger] numbers[i], ',') by {
            number_plain(last[i]);
        }
        text::pieces_of_joined(numbers, ',');
        state::numbers_among(last);
        let s = parts.last();
        assert(s.len() > 0 && text::is_digit(s[0]));
        text::trimmed_law(s);
        assert(!text::is_space(s[0]));
        if text::trimmed(s).len() == 0 {
            let (a, b) = choose|a: int, b: int|
                0 <= a <= b <= s.len() && text::trimmed(s) == #[trigger] s.subrange(a, b) && (forall|i: int|
                    0 <= i < a ==> text::is_space(#[trigger] s[i])) && (forall|i: int|
                    b <= i < s.len() ==> text::is_space(#[trigger] s[i]));
            assert(a == b);
            if a > 0 {
                assert(text::is_space(s[0]));
            }
        }
        assert(turns =~= front.push(last));
    }
}

proof fn number_plain(n: u32)
    ensures
        text::decimal(n as nat).len() > 0,
        forall|i: int| 0 <= i < text::decimal(n as nat).len() ==> text::is_digit(#[trigger] text::decimal(n as nat)[i]),
        text::lacks(text::decimal(n as nat), ','),
{
    text::decimal_round_trip(n as nat, u32::MAX as nat);
    let d = text::decimal(n as nat);
    assert forall|i: int| 0 <= i < d.len() implies #[trigger] d[i] != ',' by {
        assert(text::is_digit(d[i]));
    }
}

/// Numbers with commas between them hold digits and commas only, a digit first.
proof fn numbers_plain(ids: Seq<u32>)
    requires
        ids.len() > 0,
    ensures
        ({
            let s = text::joined(state::id_numbers(ids), seq![',']);
            &&& s.len() > 0
            &&& text::is_digit(s[0])
            &&& text::lacks(s, ';')
        }),
    decreases ids.len(),
{
    let numbers = state::id_numbers(ids);
    let s = text::joined(numbers, seq![',']);
    number_plain(ids.last());
    let last = numbers.last();
    assert(last == text::decimal(ids.last() as nat));
    if ids.len() == 1 {
        assert(s == last);
        assert forall|i: int| 0 <= i < s.len() implies #[trigger] s[i] != ';' by {
            assert(text::is_digit(s[i]));
        }
    } else {
        numbers_plain(ids.drop_last());
        let front = text::joined(numbers.drop_last(), seq![',']);
        assert(numbers.drop_last() =~= state::id_numbers(ids.drop_last()));
        assert(s == front + seq![','] + last);
        assert(s[0] == front[0]);
        assert forall|i: int| 0 <= i < s.len() implies #[trigger] s[i] != ';' by {
            if i < front.len() {
                assert(s[i] == front[i]);
            } else if i > front.len() {
                assert(s[i] == last[i - front.len() - 1]);
                assert(text::is_digit(last[i - front.len() - 1]));
            }
        }
    }
}

} // verus!
