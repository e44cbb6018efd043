//! Name resolution: free text to a unique actor identifier.
//!
//! A query is normalized (trimmed of surrounding whitespace, ASCII letters
//! folded to lower case) and compared against the actors' display
//! names, likewise normalized. One exact match resolves immediately; several
//! homonyms ask the caller back for an identifier; none falls back to fuzzy
//! suggestions drawn from a streaming top-three selection of similarity
//! scores.

use crate::data::{actors_keyed, Actor};
use std::collections::HashMap;
use vstd::prelude::*;

verus! {

/// Whether the character counts as surrounding whitespace for trimming:
/// the Unicode white-space characters, as std's trimming removes them.
pub open spec fn is_whitespace_char(c: char) -> bool {
    ||| c == ' '
    ||| c == '\t'
    ||| c == '\n'
    ||| c == '\r'
    ||| c == '\u{b}'
    ||| c == '\u{c}'
    ||| c == '\u{85}'
    ||| c == '\u{a0}'
    ||| c == '\u{1680}'
    ||| (0x2000 <= c as u32 && c as u32 <= 0x200a)
    ||| c == '\u{2028}'
    ||| c == '\u{2029}'
    ||| c == '\u{202f}'
    ||| c == '\u{205f}'
    ||| c == '\u{3000}'
}

/// The character with an ASCII capital letter folded to its lower-case
/// counterpart; anything else is left alone.
pub open spec fn lower_char(c: char) -> char {
    if 65 <= c as u32 && c as u32 <= 90 {
        ((c as u32 + 32) as u8) as char
    } else {
        c
    }
}

/// The sequence with its leading whitespace removed.
pub open spec fn trim_front(s: Seq<char>) -> Seq<char>
    decreases s.len(),
{
    if s.len() > 0 && is_whitespace_char(s[0]) {
        trim_front(s.drop_first())
    } else {
        s
    }
}

/// The sequence with its trailing whitespace removed.
pub open spec fn trim_back(s: Seq<char>) -> Seq<char>
    decreases s.len(),
{
    if s.len() > 0 && is_whitespace_char(s[s.len() - 1]) {
        trim_back(s.drop_last())
    } else {
        s
    }
}

/// The sequence with surrounding whitespace removed.
pub open spec fn trim_spec(s: Seq<char>) -> Seq<char> {
    trim_back(trim_front(s))
}

/// The normal form a query and a display name are compared in: surrounding
/// whitespace removed, ASCII capitals folded to lower case.
pub open spec fn normalize_spec(s: Seq<char>) -> Seq<char> {
    trim_spec(s).map_values(|c: char| lower_char(c))
}

/// A display name matches a query when their normal forms coincide.
pub open spec fn name_matches(name: Seq<char>, query: Seq<char>) -> bool {
    normalize_spec(name) == normalize_spec(query)
}

/// Trimming the front removes exactly the leading run of whitespace.
proof fn lemma_trim_front_skip(s: Seq<char>, lo: int)
    requires
        0 <= lo <= s.len(),
        forall|i: int| 0 <= i < lo ==> is_whitespace_char(s[i]),
        lo == s.len() || !is_whitespace_char(s[lo]),
    ensures
        trim_front(s) == s.skip(lo),
    decreases lo,
{
    if lo == 0 {
        assert(s.skip(0) =~= s);
    } else {
        assert(is_whitespace_char(s[0]));
        lemma_trim_front_skip(s.drop_first(), lo - 1);
        assert(s.drop_first().skip(lo - 1) =~= s.skip(lo));
    }
}

/// Trimming the back removes exactly the trailing run of whitespace.
proof fn lemma_trim_back_take(s: Seq<char>, hi: int)
    requires
        0 <= hi <= s.len(),
        forall|i: int| hi <= i < s.len() ==> is_whitespace_char(s[i]),
        hi == 0 || !is_whitespace_char(s[hi - 1]),
    ensures
        trim_back(s) == s.take(hi),
    decreases s.len() - hi,
{
    if hi == s.len() {
        assert(s.take(hi) =~= s);
        if s.len() > 0 && is_whitespace_char(s[s.len() - 1]) {
            assert(false);
        }
    } else {
        assert(is_whitespace_char(s[s.len() - 1]));
        lemma_trim_back_take(s.drop_last(), hi);
        assert(s.drop_last().take(hi) =~= s.take(hi));
    }
}

/// Relies on String's FromIterator over char: collecting yields exactly the
/// given characters in order.
#[verifier::external_body]
fn chars_to_string(cs: &Vec<char>) -> (r: String)
    ensures
        r@ == cs@,
{
    cs.iter().collect()
}

/// The characters of the text, in order, as a vector.
pub(crate) fn str_chars(s: &str) -> (r: Vec<char>)
    ensures
        r@ == s@,
{
    let mut r: Vec<char> = Vec::new();
    for c in it: s.chars()
        invariant
            it.seq() == s@,
            r@ == it.seq().take(it.index() as int),
    {
        r.push(c);
    }
    proof {
        assert(s@.take(s@.len() as int) =~= s@);
    }
    r
}

/// Whether the character counts as whitespace for trimming.
fn is_space_char(c: char) -> (r: bool)
    ensures
        r == is_whitespace_char(c),
{
    let u = c as u32;
    c == ' ' || c == '\t' || c == '\n' || c == '\r' || c == '\u{b}' || c == '\u{c}' || c
        == '\u{85}' || c == '\u{a0}' || c == '\u{1680}' || (0x2000 <= u && u <= 0x200a) || c
        == '\u{2028}' || c == '\u{2029}' || c == '\u{202f}' || c == '\u{205f}' || c == '\u{3000}'
}

/// The character folded to lower case if it is an ASCII capital letter.
pub(crate) fn lower_char_exec(c: char) -> (r: char)
    ensures
        r == lower_char(c),
{
    let u = c as u32;
    if 65 <= u && u <= 90 {
        ((u + 32) as u8) as char
    } else {
        c
    }
}

/// The query in its normal form: surrounding whitespace removed and ASCII
/// capitals folded to lower case.
pub fn normalize_query(s: &str) -> (r: String)
    ensures
        r@ == normalize_spec(s@),
{
    let cs = str_chars(s);
    let n = cs.len();
    let mut lo: usize = 0;
    while lo < n && is_space_char(cs[lo])
        invariant
            lo <= n,
            n == cs@.len(),
            cs@ == s@,
            forall|i: int| 0 <= i < lo ==> is_whitespace_char(cs@[i]),
        decreases n - lo,
    {
        lo += 1;
    }
    let mut hi: usize = n;
    while hi > lo && is_space_char(cs[hi - 1])
        invariant
            lo <= hi <= n,
            n == cs@.len(),
            cs@ == s@,
            forall|i: int| hi <= i < n ==> is_whitespace_char(cs@[i]),
        decreases hi,
    {
        hi -= 1;
    }
    let mut out: Vec<char> = Vec::new();
    let mut i: usize = lo;
    while i < hi
        invariant
            lo <= i <= hi <= n,
            n == cs@.len(),
            out@.len() == i - lo,
            forall|t: int| 0 <= t < out@.len() ==> out@[t] == lower_char(cs@[lo + t]),
        decreases hi - i,
    {
        out.push(lower_char_exec(cs[i]));
        i += 1;
    }
    proof {
        lemma_trim_front_skip(s@, lo as int);
        assert(forall|t: int|
            hi - lo <= t < s@.skip(lo as int).len() ==> is_whitespace_char(s@.skip(lo as int)[t]));
        lemma_trim_back_take(s@.skip(lo as int), hi - lo);
        assert(trim_spec(s@) =~= s@.subrange(lo as int, hi as int));
        assert(out@ =~= normalize_spec(s@));
    }
    chars_to_string(&out)
}

/// Whether the character is an ASCII digit.
pub open spec fn is_digit(c: char) -> bool {
    48 <= c as u32 && c as u32 <= 57
}

/// The numeric value of an ASCII digit.
pub open spec fn digit_val(c: char) -> int {
    c as u32 - 48
}

/// Whether every character of the sequence is an ASCII digit.
pub open spec fn all_digits(s: Seq<char>) -> bool {
    forall|i: int| 0 <= i < s.len() ==> is_digit(#[trigger] s[i])
}

/// The number the digit sequence denotes in base ten.
pub open spec fn digits_val(s: Seq<char>) -> int
    decreases s.len(),
{
    if s.len() == 0 {
        0
    } else {
        digits_val(s.drop_last()) * 10 + digit_val(s.last())
    }
}

/// What parsing an identifier from the trimmed text yields: the denoted
/// number if the text is a nonempty run of ASCII digits whose value fits the
/// machine, nothing otherwise.
pub open spec fn parse_id_spec(s: Seq<char>) -> Option<usize> {
    if s.len() > 0 && all_digits(s) && digits_val(s) <= usize::MAX {
        Some(digits_val(s) as usize)
    } else {
        None
    }
}

/// A digit sequence's value is nonnegative and no prefix of it denotes more
/// than the whole.
proof fn lemma_digits_prefix_le(s: Seq<char>, j: int)
    requires
        all_digits(s),
        0 <= j <= s.len(),
    ensures
        0 <= digits_val(s.take(j)),
        digits_val(s.take(j)) <= digits_val(s),
    decreases s.len() - j,
{
    if j == s.len() {
        assert(s.take(j) =~= s);
        lemma_digits_nonneg(s);
    } else {
        lemma_digits_prefix_le(s, j + 1);
        lemma_digits_nonneg(s.take(j));
        assert(s.take(j + 1).drop_last() =~= s.take(j));
        assert(is_digit(s[j]));
        assert(digits_val(s.take(j + 1)) == digits_val(s.take(j)) * 10 + digit_val(s[j]));
        assert(digits_val(s.take(j)) <= digits_val(s.take(j)) * 10) by (nonlinear_arith)
            requires
                digits_val(s.take(j)) >= 0,
        ;
    }
}

/// A digit sequence's value is nonnegative.
proof fn lemma_digits_nonneg(s: Seq<char>)
    requires
        all_digits(s),
    ensures
        digits_val(s) >= 0,
    decreases s.len(),
{
    if s.len() > 0 {
        assert(all_digits(s.drop_last())) by {
            assert(forall|i: int| 0 <= i < s.len() - 1 ==> is_digit(#[trigger] s[i]));
        }
        lemma_digits_nonneg(s.drop_last());
        assert(is_digit(s.last()));
        assert(digits_val(s.drop_last()) * 10 >= 0) by (nonlinear_arith)
            requires
                digits_val(s.drop_last()) >= 0,
        ;
    }
}

/// Parses an actor identifier from the text: surrounding whitespace is
/// ignored, and anything but a nonempty run of ASCII digits denoting a
/// number that fits the machine yields nothing.
pub fn parse_actor_id(s: &str) -> (r: Option<usize>)
    ensures
        r == parse_id_spec(trim_spec(s@)),
{
    let cs = str_chars(s);
    let n = cs.len();
    let mut lo: usize = 0;
    while lo < n && is_space_char(cs[lo])
        invariant
            lo <= n,
            n == cs@.len(),
            cs@ == s@,
            forall|i: int| 0 <= i < lo ==> is_whitespace_char(cs@[i]),
        decreases n - lo,
    {
        lo += 1;
    }
    let mut hi: usize = n;
    while hi > lo && is_space_char(cs[hi - 1])
        invariant
            lo <= hi <= n,
            n == cs@.len(),
            cs@ == s@,
            forall|i: int| hi <= i < n ==> is_whitespace_char(cs@[i]),
        decreases hi,
    {
        hi -= 1;
    }
    proof {
        lemma_trim_front_skip(s@, lo as int);
        assert(forall|t: int|
            hi - lo <= t < s@.skip(lo as int).len() ==> is_whitespace_char(s@.skip(lo as int)[t]));
        lemma_trim_back_take(s@.skip(lo as int), hi - lo);
        assert(trim_spec(s@) =~= s@.subrange(lo as int, hi as int));
    }
    let ghost trimmed = s@.subrange(lo as int, hi as int);
    if lo == hi {
        return None;
    }
    let mut val: usize = 0;
    let mut i: usize = lo;
    while i < hi
        invariant
            lo <= i <= hi <= n,
            n == cs@.len(),
            cs@ == s@,
            lo < hi,
            trimmed == s@.subrange(lo as int, hi as int),
            trim_spec(s@) == trimmed,
            forall|t: int| lo <= t < i ==> is_digit(#[trigger] cs@[t]),
            val == digits_val(trimmed.take(i - lo)),
            val <= usize::MAX,
        decreases hi - i,
    {
        let c = cs[i];
        let u = c as u32;
        if u < 48 || u > 57 {
            proof {
                assert(!is_digit(trimmed[i - lo]));
                assert(!all_digits(trimmed));
            }
            return None;
        }
        let d = (u - 48) as usize;
        proof {
            assert(trimmed.take(i - lo + 1).drop_last() =~= trimmed.take(i - lo));
            assert(trimmed.take(i - lo + 1).last() == cs@[i as int]);
        }
        if val > (usize::MAX - d) / 10 {
            proof {
                let w = digits_val(trimmed.take(i - lo + 1));
                assert(w == val * 10 + d);
                assert(val * 10 + d > usize::MAX) by (nonlinear_arith)
                    requires
                        val > (usize::MAX - d) / 10,
                        0 <= d <= 9,
                ;
                if all_digits(trimmed) {
                    lemma_digits_prefix_le(trimmed, i - lo + 1);
                    assert(digits_val(trimmed) >= w);
                }
            }
            return None;
        }
        proof {
            assert(val * 10 + d <= usize::MAX) by (nonlinear_arith)
                requires
                    val <= (usize::MAX - d) / 10,
                    0 <= d <= 9,
            ;
        }
        val = val * 10 + d;
        i += 1;
    }
    proof {
        assert(trimmed.take(hi - lo) =~= trimmed);
        assert(all_digits(trimmed));
    }
    Some(val)
}

/// Looks an actor up by identifier.
pub fn get_actor_by_id(actors: &HashMap<usize, Actor>, id: usize) -> (r: Option<Actor>)
    ensures
        match r {
            Some(a) => actors@.contains_key(id) && actors@[id] == a,
            None => !actors@.contains_key(id),
        },
{
    match actors.get(&id) {
        Some(a) => Some(a.clone()),
        None => None,
    }
}

/// The records of an enumeration stand in one-to-one correspondence with
/// the table's keys: position j holds the record stored under key j of some
/// duplicate-free key list.
pub open spec fn table_keys_match(
    actors: Map<usize, Actor>,
    keys: Seq<usize>,
    records: Seq<Actor>,
) -> bool {
    &&& keys.len() == records.len()
    &&& keys.no_duplicates()
    &&& forall|j: int| #![trigger keys[j]]
        0 <= j < keys.len() ==> actors.contains_key(keys[j]) && actors[keys[j]] == records[j]
}

/// Relies on HashMap::values: the iterator visits every stored record, one
/// per table entry, so the records correspond one-to-one to the keys.
#[verifier::external_body]
fn table_values(actors: &HashMap<usize, Actor>) -> (r: Vec<Actor>)
    ensures
        r@.len() == actors@.dom().len(),
        forall|a: Actor| #[trigger] r@.contains(a) <==> actors@.values().contains(a),
        exists|keys: Seq<usize>| #[trigger] table_keys_match(actors@, keys, r@),
{
    actors.values().cloned().collect()
}

/// In a consistently keyed table, an enumeration's records are pairwise
/// distinct: each carries its own key as identifier.
proof fn lemma_entries_unique(actors: Map<usize, Actor>, keys: Seq<usize>, records: Seq<Actor>)
    requires
        actors_keyed(actors),
        table_keys_match(actors, keys, records),
    ensures
        records.no_duplicates(),
{
    assert forall|i: int, j: int|
        0 <= i < records.len() && 0 <= j < records.len() && i != j implies records[i]
        != records[j] by {
        assert(actors.contains_key(keys[i]));
        assert(actors.contains_key(keys[j]));
        assert(records[i].id == keys[i]);
        assert(records[j].id == keys[j]);
    }
}

/// Every actor whose display name matches the query, in no particular
/// order: names are compared in their normal form, so case and surrounding
/// whitespace do not matter.
pub fn get_actor_by_name(actors: &HashMap<usize, Actor>, name: &str) -> (r: Vec<Actor>)
    ensures
        forall|a: Actor| #[trigger] r@.contains(a) <==> (actors@.values().contains(a)
            && name_matches(a.name@, name@)),
        actors_keyed(actors@) ==> r@.no_duplicates(),
{
    let nq = normalize_query(name);
    let entries = table_values(actors);
    proof {
        if actors_keyed(actors@) {
            let keys = choose|keys: Seq<usize>| #[trigger] table_keys_match(
                actors@,
                keys,
                entries@,
            );
            lemma_entries_unique(actors@, keys, entries@);
        }
    }
    let mut selected: Vec<Actor> = Vec::new();
    let mut i: usize = 0;
    while i < entries.len()
        invariant
            i <= entries@.len(),
            nq@ == normalize_spec(name@),
            forall|x: Actor| #[trigger] selected@.contains(x) <==> (exists|j: int|
                0 <= j < i && #[trigger] entries@[j] == x && name_matches(x.name@, name@)),
            entries@.no_duplicates() ==> selected@.no_duplicates(),
        decreases entries@.len() - i,
    {
        let a = &entries[i];
        let an = normalize_query(a.name.as_str());
        let ghost before = selected@;
        if an == nq {
            selected.push(a.clone());
        }
        proof {
            if an@ == nq@ {
                crate::data::lemma_push_contains(before, entries@[i as int]);
                if entries@.no_duplicates() {
                    assert(!before.contains(entries@[i as int])) by {
                        if before.contains(entries@[i as int]) {
                            let j = choose|j: int|
                                0 <= j < i && #[trigger] entries@[j] == entries@[i as int]
                                    && name_matches(entries@[i as int].name@, name@);
                        }
                    }
                    crate::data::lemma_push_no_dup(before, entries@[i as int]);
                }
            } else {
                assert(selected@ == before);
            }
            assert forall|x: Actor| #[trigger] selected@.contains(x) implies (exists|j: int|
                0 <= j < i + 1 && #[trigger] entries@[j] == x && name_matches(
                    x.name@,
                    name@,
                )) by {
                if before.contains(x) {
                    let j = choose|j: int|
                        0 <= j < i && #[trigger] entries@[j] == x && name_matches(x.name@, name@);
                } else {
                    assert(entries@[i as int] == x);
                }
            }
            assert forall|x: Actor| (exists|j: int|
                0 <= j < i + 1 && #[trigger] entries@[j] == x && name_matches(
                    x.name@,
                    name@,
                )) implies #[trigger] selected@.contains(x) by {
                let j = choose|j: int|
                    0 <= j < i + 1 && #[trigger] entries@[j] == x && name_matches(x.name@, name@);
                if j < i {
                    assert(before.contains(x));
                }
            }
        }
        i += 1;
    }
    proof {
        assert forall|a: Actor| #[trigger] selected@.contains(a) <==> (actors@.values().contains(a)
            && name_matches(a.name@, name@)) by {
            if selected@.contains(a) {
                let j = choose|j: int|
                    0 <= j < entries@.len() && #[trigger] entries@[j] == a && name_matches(
                        a.name@,
                        name@,
                    );
                assert(entries@.contains(a));
            }
            if actors@.values().contains(a) && name_matches(a.name@, name@) {
                assert(entries@.contains(a));
                let j = choose|j: int| 0 <= j < entries@.len() && #[trigger] entries@[j] == a;
            }
        }
    }
    selected
}

/// The IEEE-754 bit pattern of similarity score one: the greatest score
/// the Jaro-Winkler similarity reaches, and the score of textually equal
/// strings.
pub const PERFECT_SCORE_BITS: u64 = 0x3FF0_0000_0000_0000;

/// What the name of a similarity score is: the bit pattern of the score
/// strsim's Jaro-Winkler similarity assigns to the two texts.
pub uninterp spec fn jaro_winkler_bits(a: Seq<char>, b: Seq<char>) -> u64;

/// Relies on strsim::jaro_winkler: a similarity in [0, 1] computed from the
/// two strings alone, where equal strings score exactly 1. The score is
/// returned as its IEEE-754 bit pattern, which orders such nonnegative
/// values exactly as the numbers themselves.
#[verifier::external_body]
fn similarity_bits(a: &str, b: &str) -> (r: u64)
    ensures
        r == jaro_winkler_bits(a@, b@),
        r <= PERFECT_SCORE_BITS,
        a@ == b@ ==> r == PERFECT_SCORE_BITS,
{
    strsim::jaro_winkler(a, b).to_bits()
}

/// The set of distinct display-name strings in a corpus.
pub open spec fn distinct_names(names: Seq<String>) -> Set<Seq<char>> {
    names.map_values(|s: String| s@).to_set()
}

/// Whether some kept entry carries exactly this name string.
pub open spec fn view_kept(names: Seq<String>, picked: Seq<usize>, v: Seq<char>) -> bool {
    exists|t: int| 0 <= t < picked.len() && names[(#[trigger] picked[t]) as int]@ == v
}

/// One more corpus entry extends the distinct-name set by exactly its
/// string.
proof fn lemma_distinct_step(names: Seq<String>, i: int)
    requires
        0 <= i < names.len(),
    ensures
        distinct_names(names.take(i + 1)) =~= distinct_names(names.take(i)).insert(names[i]@),
        distinct_names(names.take(i)).finite(),
        distinct_names(names.take(i + 1)).finite(),
{
    broadcast use vstd::seq_lib::seq_to_set_is_finite;

    let f = |s: String| s@;
    assert(names.take(i + 1).map_values(f) =~= names.take(i).map_values(f).push(names[i]@));
    crate::data::lemma_push_contains(names.take(i).map_values(f), names[i]@);
}

/// A valid outcome of the streaming top-three selection: the survivors are
/// distinct corpus entries carrying pairwise distinct name strings, and
/// every corpus entry whose string is not among the survivors scores at or
/// below every survivor.
pub open spec fn top_scores_picked(
    names: Seq<String>,
    query: Seq<char>,
    out: Seq<String>,
    picked: Seq<usize>,
) -> bool {
    &&& picked.len() == out.len()
    &&& picked.no_duplicates()
    &&& forall|k: int|
        0 <= k < picked.len() ==> (#[trigger] picked[k]) < names.len() && out[k] == names[
            picked[k] as int
        ]
    &&& forall|k: int, l: int|
        #![trigger out[k], out[l]]
        0 <= k < l < out.len() ==> out[k]@ != out[l]@
    &&& forall|j: int, k: int|
        #![trigger jaro_winkler_bits(names[j]@, query), picked[k]]
        0 <= j < names.len() && !view_kept(names, picked, names[j]@) && 0 <= k < picked.len()
            ==> jaro_winkler_bits(names[j]@, query) <= jaro_winkler_bits(
            names[picked[k] as int]@,
            query,
        )
}

/// Whether any kept entry's name string equals the corpus entry at the
/// given position.
fn kept_has_view(names: &Vec<String>, picked: &Vec<usize>, idx: usize) -> (r: bool)
    requires
        idx < names@.len(),
        forall|k: int| 0 <= k < picked@.len() ==> (#[trigger] picked@[k]) < names@.len(),
    ensures
        r == view_kept(names@, picked@, names@[idx as int]@),
{
    let mut k: usize = 0;
    while k < picked.len()
        invariant
            k <= picked@.len(),
            idx < names@.len(),
            forall|t: int| 0 <= t < picked@.len() ==> (#[trigger] picked@[t]) < names@.len(),
            forall|t: int|
                0 <= t < k ==> names@[(#[trigger] picked@[t]) as int]@ != names@[idx as int]@,
        decreases picked@.len() - k,
    {
        if names[picked[k]] == names[idx] {
            proof {
                assert(names@[(picked@[k as int]) as int]@ == names@[idx as int]@);
            }
            return true;
        }
        k += 1;
    }
    proof {
        if view_kept(names@, picked@, names@[idx as int]@) {
            let t = choose|t: int|
                0 <= t < picked@.len() && names@[(#[trigger] picked@[t]) as int]@ == names@[
                    idx as int
                ]@;
            assert(false);
        }
    }
    false
}

/// The position of a smallest score among the kept entries.
fn find_min_pos(picked: &Vec<usize>, scores: &Vec<u64>) -> (r: usize)
    requires
        picked@.len() > 0,
        forall|k: int| 0 <= k < picked@.len() ==> (#[trigger] picked@[k]) < scores@.len(),
    ensures
        r < picked@.len(),
        forall|k: int|
            0 <= k < picked@.len() ==> scores@[picked@[r as int] as int] <= scores@[(
            #[trigger] picked@[k]) as int],
{
    let mut r: usize = 0;
    let mut k: usize = 1;
    while k < picked.len()
        invariant
            r < k <= picked@.len(),
            picked@.len() > 0,
            forall|t: int| 0 <= t < picked@.len() ==> (#[trigger] picked@[t]) < scores@.len(),
            forall|t: int|
                0 <= t < k ==> scores@[picked@[r as int] as int] <= scores@[(
                #[trigger] picked@[t]) as int],
        decreases picked@.len() - k,
    {
        if scores[picked[k]] < scores[picked[r]] {
            r = k;
        }
        k += 1;
    }
    r
}

/// The fuzzy fallback: scores every corpus entry against the query with the
/// Jaro-Winkler similarity and keeps a streaming top three of distinct name
/// strings — a string already kept is skipped, and whenever a new string
/// beats the current minimum of the kept set, that minimum is evicted. Up
/// to three distinct survivors come back; ties at the boundary are broken
/// arbitrarily.
pub fn fuzzy_search_actor(names: &Vec<String>, query: &str) -> (r: Vec<String>)
    ensures
        r@.len() == if distinct_names(names@).len() < 3 {
            distinct_names(names@).len() as int
        } else {
            3
        },
        exists|picked: Seq<usize>| #[trigger] top_scores_picked(names@, query@, r@, picked),
        (exists|j: int|
            0 <= j < names@.len() && jaro_winkler_bits((#[trigger] names@[j])@, query@)
                == PERFECT_SCORE_BITS) ==> exists|k: int|
            0 <= k < r@.len() && jaro_winkler_bits((#[trigger] r@[k])@, query@)
                == PERFECT_SCORE_BITS,
{
    let n = names.len();
    let mut scores: Vec<u64> = Vec::new();
    let mut i: usize = 0;
    while i < n
        invariant
            i <= n,
            n == names@.len(),
            scores@.len() == i,
            forall|j: int|
                0 <= j < i ==> scores@[j] == jaro_winkler_bits((#[trigger] names@[j])@, query@),
            forall|j: int| 0 <= j < i ==> (#[trigger] scores@[j]) <= PERFECT_SCORE_BITS,
        decreases n - i,
    {
        scores.push(similarity_bits(names[i].as_str(), query));
        i += 1;
    }
    let mut picked: Vec<usize> = Vec::new();
    let mut min_pos: usize = 0;
    let mut i: usize = 0;
    proof {
        assert(names@.take(0).map_values(|s: String| s@) =~= Seq::<Seq<char>>::empty());
        assert(distinct_names(names@.take(0)) =~= Set::<Seq<char>>::empty());
    }
    while i < n
        invariant
            i <= n,
            n == names@.len(),
            scores@.len() == n,
            forall|j: int|
                0 <= j < n ==> scores@[j] == jaro_winkler_bits((#[trigger] names@[j])@, query@),
            forall|j: int| 0 <= j < n ==> (#[trigger] scores@[j]) <= PERFECT_SCORE_BITS,
            picked@.len() <= 3,
            picked@.no_duplicates(),
            forall|k: int| 0 <= k < picked@.len() ==> (#[trigger] picked@[k]) < i,
            forall|k: int, l: int|
                #![trigger picked@[k], picked@[l]]
                0 <= k < l < picked@.len() ==> names@[picked@[k] as int]@ != names@[picked@[
                    l
                ] as int]@,
            picked@.len() > 0 ==> min_pos < picked@.len(),
            forall|k: int|
                0 <= k < picked@.len() ==> scores@[picked@[min_pos as int] as int] <= scores@[(
                #[trigger] picked@[k]) as int],
            picked@.len() < 3 ==> forall|j: int|
                0 <= j < i ==> #[trigger] view_kept(names@, picked@, names@[j]@),
            forall|j: int|
                0 <= j < i && !#[trigger] view_kept(names@, picked@, names@[j]@) ==> scores@[j]
                    <= scores@[picked@[min_pos as int] as int],
            picked@.len() == (if distinct_names(names@.take(i as int)).len() < 3 {
                distinct_names(names@.take(i as int)).len() as int
            } else {
                3
            }),
        decreases n - i,
    {
        let ghost picked0 = picked@;
        let ghost minv0: u64 = if picked0.len() > 0 {
            scores@[picked0[min_pos as int] as int]
        } else {
            0
        };
        let ghost s_pre = distinct_names(names@.take(i as int));
        proof {
            lemma_distinct_step(names@, i as int);
        }
        let dup = kept_has_view(names, &picked, i);
        if dup {
            proof {
                let t = choose|t: int|
                    0 <= t < picked0.len() && names@[(#[trigger] picked0[t]) as int]@ == names@[
                        i as int
                    ]@;
                let f = |s: String| s@;
                assert(names@.take(i as int).map_values(f)[picked0[t] as int] == names@[
                    i as int
                ]@);
                assert(names@.take(i as int).map_values(f).contains(names@[i as int]@));
                assert(s_pre.contains(names@[i as int]@));
                assert(s_pre.insert(names@[i as int]@) =~= s_pre);
            }
        } else {
            if picked.len() < 3 {
                proof {
                    assert(!s_pre.contains(names@[i as int]@)) by {
                        if s_pre.contains(names@[i as int]@) {
                            let f = |s: String| s@;
                            let j = choose|j: int|
                                0 <= j < names@.take(i as int).map_values(f).len()
                                    && #[trigger] names@.take(i as int).map_values(f)[j]
                                    == names@[i as int]@;
                            assert(names@.take(i as int)[j] == names@[j]);
                            assert(names@[j]@ == names@[i as int]@);
                            assert(view_kept(names@, picked0, names@[j]@));
                            let t = choose|t: int|
                                0 <= t < picked0.len() && names@[(#[trigger] picked0[t]) as int]@
                                    == names@[j]@;
                            assert(names@[(picked0[t]) as int]@ == names@[i as int]@);
                            assert(view_kept(names@, picked0, names@[i as int]@));
                        }
                    }
                    assert(!picked0.contains(i)) by {
                        if picked0.contains(i) {
                            let t = choose|t: int|
                                0 <= t < picked0.len() && #[trigger] picked0[t] == i;
                        }
                    }
                    crate::data::lemma_push_contains(picked0, i);
                    crate::data::lemma_push_no_dup(picked0, i);
                }
                picked.push(i);
                min_pos = find_min_pos(&picked, &scores);
                proof {
                    assert forall|j: int| 0 <= j < i + 1 implies #[trigger] view_kept(
                        names@,
                        picked@,
                        names@[j]@,
                    ) by {
                        if j == i {
                            assert(picked@[picked0.len() as int] == i);
                        } else {
                            assert(view_kept(names@, picked0, names@[j]@));
                            let t = choose|t: int|
                                0 <= t < picked0.len() && names@[(#[trigger] picked0[t]) as int]@
                                    == names@[j]@;
                            assert(picked@[t] == picked0[t]);
                        }
                    }
                }
            } else {
                if scores[i] > scores[picked[min_pos]] {
                    let ghost mp0: int = min_pos as int;
                    let _ = picked.remove(min_pos);
                    let ghost removed = picked@;
                    picked.push(i);
                    proof {
                        picked0.remove_ensures(mp0);
                        assert(removed == picked0.remove(mp0));
                        assert(!removed.contains(i)) by {
                            if removed.contains(i) {
                                let t = choose|t: int|
                                    0 <= t < removed.len() && #[trigger] removed[t] == i;
                            }
                        }
                        crate::data::lemma_push_no_dup(removed, i);
                        crate::data::lemma_push_contains(removed, i);
                        assert forall|k: int|
                            0 <= k < picked@.len() implies minv0 <= scores@[(
                        #[trigger] picked@[k]) as int] by {
                            if k < removed.len() {
                                if k < mp0 {
                                    assert(picked@[k] == picked0[k]);
                                } else {
                                    assert(picked@[k] == picked0[k + 1]);
                                }
                            } else {
                                assert(picked@[k] == i);
                            }
                        }
                        assert forall|k: int, l: int|
                            #![trigger picked@[k], picked@[l]]
                            0 <= k < l < picked@.len() implies names@[picked@[k] as int]@
                            != names@[picked@[l] as int]@ by {
                            if l < removed.len() {
                                let k0: int = if k < mp0 {
                                    k
                                } else {
                                    k + 1
                                };
                                let l0: int = if l < mp0 {
                                    l
                                } else {
                                    l + 1
                                };
                                assert(picked@[k] == picked0[k0]);
                                assert(picked@[l] == picked0[l0]);
                            } else {
                                let k0: int = if k < mp0 {
                                    k
                                } else {
                                    k + 1
                                };
                                assert(picked@[k] == picked0[k0]);
                                assert(picked@[l] == i);
                                assert(!view_kept(names@, picked0, names@[i as int]@));
                                assert(names@[(picked0[k0]) as int]@ != names@[i as int]@) by {
                                    if names@[(picked0[k0]) as int]@ == names@[i as int]@ {
                                        assert(view_kept(names@, picked0, names@[i as int]@));
                                    }
                                }
                            }
                        }
                    }
                    min_pos = find_min_pos(&picked, &scores);
                    proof {
                        assert(minv0 <= scores@[picked@[min_pos as int] as int]);
                        assert forall|j: int|
                            0 <= j < i + 1 && !#[trigger] view_kept(
                                names@,
                                picked@,
                                names@[j]@,
                            ) implies scores@[j] <= scores@[picked@[min_pos as int] as int] by {
                            if j == i {
                                assert(picked@[picked@.len() - 1] == i);
                                assert(view_kept(names@, picked@, names@[i as int]@));
                            } else if view_kept(names@, picked0, names@[j]@) {
                                let t = choose|t: int|
                                    0 <= t < picked0.len() && names@[(#[trigger] picked0[t]) as int]@
                                        == names@[j]@;
                                if t == mp0 {
                                    assert(scores@[j] == jaro_winkler_bits(
                                        names@[j]@,
                                        query@,
                                    ));
                                    assert(scores@[picked0[mp0] as int] == jaro_winkler_bits(
                                        names@[picked0[mp0] as int]@,
                                        query@,
                                    ));
                                    assert(scores@[j] == minv0);
                                } else {
                                    let t2: int = if t < mp0 {
                                        t
                                    } else {
                                        t - 1
                                    };
                                    assert(removed[t2] == picked0[t]);
                                    assert(picked@[t2] == picked0[t]);
                                    assert(view_kept(names@, picked@, names@[j]@));
                                    assert(false);
                                }
                            } else {
                                assert(scores@[j] <= minv0);
                            }
                        }
                        assert(s_pre.len() >= 3);
                        assert(s_pre.subset_of(s_pre.insert(names@[i as int]@)));
                        vstd::set_lib::lemma_len_subset(s_pre, s_pre.insert(names@[i as int]@));
                    }
                } else {
                    proof {
                        assert forall|j: int|
                            0 <= j < i + 1 && !#[trigger] view_kept(
                                names@,
                                picked@,
                                names@[j]@,
                            ) implies scores@[j] <= scores@[picked@[min_pos as int] as int] by {
                            if j == i {
                                assert(scores@[i as int] <= minv0);
                            }
                        }
                        assert(s_pre.len() >= 3);
                        assert(s_pre.subset_of(s_pre.insert(names@[i as int]@)));
                        vstd::set_lib::lemma_len_subset(s_pre, s_pre.insert(names@[i as int]@));
                    }
                }
            }
        }
        i += 1;
    }
    let mut out: Vec<String> = Vec::new();
    let mut k: usize = 0;
    while k < picked.len()
        invariant
            k <= picked@.len(),
            n == names@.len(),
            forall|t: int| 0 <= t < picked@.len() ==> (#[trigger] picked@[t]) < n,
            out@.len() == k,
            forall|t: int| 0 <= t < k ==> #[trigger] out@[t] == names@[picked@[t] as int],
        decreases picked@.len() - k,
    {
        out.push(names[picked[k]].clone());
        k += 1;
    }
    proof {
        assert(names@.take(n as int) =~= names@);
        assert(top_scores_picked(names@, query@, out@, picked@)) by {
            assert forall|k2: int, l: int|
                #![trigger out@[k2], out@[l]]
                0 <= k2 < l < out@.len() implies out@[k2]@ != out@[l]@ by {
                assert(out@[k2] == names@[picked@[k2] as int]);
                assert(out@[l] == names@[picked@[l] as int]);
            }
        }
        if exists|j: int|
            0 <= j < names@.len() && jaro_winkler_bits((#[trigger] names@[j])@, query@)
                == PERFECT_SCORE_BITS {
            let j = choose|j: int|
                0 <= j < names@.len() && jaro_winkler_bits((#[trigger] names@[j])@, query@)
                    == PERFECT_SCORE_BITS;
            assert(scores@[j] == PERFECT_SCORE_BITS);
            assert(distinct_names(names@).contains(names@[j]@)) by {
                let f = |s: String| s@;
                assert(names@.map_values(f)[j] == names@[j]@);
                assert(names@.map_values(f).contains(names@[j]@));
            }
            assert(picked@.len() > 0) by {
                if distinct_names(names@).len() == 0 {
                    assert(!distinct_names(names@).contains(names@[j]@)) by {
                        distinct_names(names@).lemma_len0_is_empty();
                    }
                }
            }
            if view_kept(names@, picked@, names@[j]@) {
                let t = choose|t: int|
                    0 <= t < picked@.len() && names@[(#[trigger] picked@[t]) as int]@ == names@[
                        j
                    ]@;
                assert(scores@[picked@[t] as int] == jaro_winkler_bits(
                    names@[picked@[t] as int]@,
                    query@,
                ));
                assert(out@[t]@ == names@[picked@[t] as int]@);
                assert(jaro_winkler_bits(out@[t]@, query@) == PERFECT_SCORE_BITS);
            } else {
                assert(scores@[j] <= scores@[picked@[min_pos as int] as int]);
                assert(scores@[picked@[min_pos as int] as int] <= PERFECT_SCORE_BITS);
                assert(scores@[picked@[min_pos as int] as int] == PERFECT_SCORE_BITS);
                assert(out@[min_pos as int]@ == names@[picked@[min_pos as int] as int]@);
                assert(jaro_winkler_bits(out@[min_pos as int]@, query@) == PERFECT_SCORE_BITS);
            }
        }
    }
    out
}

/// The name list handed to the fuzzy fallback enumerates the table: one
/// entry per stored record, position j carrying the display name of the
/// stored actor at position j of the enumeration.
pub open spec fn corpus_names(
    actors: Map<usize, Actor>,
    names: Seq<String>,
    entries: Seq<Actor>,
) -> bool {
    &&& names.len() == actors.dom().len()
    &&& entries.len() == names.len()
    &&& forall|j: int|
        #![trigger entries[j]]
        0 <= j < names.len() ==> actors.values().contains(entries[j]) && entries[j].name
            == names[j]
}

/// A name list copied entry for entry from an enumeration of the table
/// enumerates the table's display names.
proof fn lemma_corpus(actors: Map<usize, Actor>, names: Seq<String>, entries: Seq<Actor>)
    requires
        names.len() == actors.dom().len(),
        entries.len() == names.len(),
        forall|t: int| 0 <= t < names.len() ==> #[trigger] names[t] == entries[t].name,
        forall|a: Actor| #[trigger] entries.contains(a) <==> actors.values().contains(a),
    ensures
        corpus_names(actors, names, entries),
{
    assert forall|j: int|
        #![trigger entries[j]]
        0 <= j < names.len() implies actors.values().contains(entries[j]) && entries[j].name
        == names[j] by {
        assert(entries.contains(entries[j]));
    }
}

/// Where the interactive resolution stands: waiting for a name, or waiting
/// for an identifier after several actors matched one name.
pub enum ResolverState {
    AwaitingName,
    AwaitingDisambiguationId,
}

/// One step's outcome. `Resolved` ends the exchange; `Ambiguous` moves to
/// awaiting an identifier; `Suggestions`, `InvalidQuery` and `UnknownId`
/// re-prompt in the current state.
pub enum ResolveStep {
    Resolved(Actor),
    Ambiguous(Vec<Actor>),
    Suggestions(Vec<String>),
    InvalidQuery,
    UnknownId(usize),
}

/// What a fuzzy-fallback outcome must have settled: the normalized query is
/// nonempty, no stored name matches it, and the suggestions are a top-three
/// selection over some enumeration of the table's display names.
pub open spec fn suggestions_ok(
    actors: Map<usize, Actor>,
    input: Seq<char>,
    sug: Seq<String>,
) -> bool {
    &&& normalize_spec(input).len() > 0
    &&& forall|b: Actor| #[trigger] actors.values().contains(b) ==> !name_matches(b.name@, input)
    &&& exists|names: Seq<String>, picked: Seq<usize>, entries: Seq<Actor>|
        #[trigger] corpus_names(actors, names, entries) && #[trigger] top_scores_picked(
            names,
            normalize_spec(input),
            sug,
            picked,
        ) && sug.len() == (if distinct_names(names).len() < 3 {
            distinct_names(names).len() as int
        } else {
            3
        })
}

/// What a step taken while awaiting a name must have settled: an empty
/// normalized query is invalid; one exact match resolves; several are handed
/// back whole for disambiguation; none yields the fuzzy fallback's
/// suggestions, drawn from an enumeration of the table's display names.
pub open spec fn name_step_ok(
    actors: Map<usize, Actor>,
    input: Seq<char>,
    step: ResolveStep,
) -> bool {
    match step {
        ResolveStep::InvalidQuery => normalize_spec(input).len() == 0,
        ResolveStep::Resolved(a) => {
            &&& normalize_spec(input).len() > 0
            &&& actors.values().contains(a)
            &&& name_matches(a.name@, input)
            &&& forall|b: Actor|
                #[trigger] actors.values().contains(b) && name_matches(b.name@, input) ==> b == a
        },
        ResolveStep::Ambiguous(v) => {
            &&& normalize_spec(input).len() > 0
            &&& v@.len() >= 2
            &&& v@.no_duplicates()
            &&& forall|b: Actor| #[trigger] v@.contains(b) <==> (actors.values().contains(b)
                && name_matches(b.name@, input))
        },
        ResolveStep::Suggestions(sug) => suggestions_ok(actors, input, sug@),
        ResolveStep::UnknownId(_) => false,
    }
}

/// What a step taken while awaiting a disambiguating identifier must have
/// settled: an unparseable line is invalid, a parsed but absent identifier
/// is unknown, and a present one resolves to its record.
pub open spec fn id_step_ok(
    actors: Map<usize, Actor>,
    input: Seq<char>,
    step: ResolveStep,
) -> bool {
    match step {
        ResolveStep::InvalidQuery => parse_id_spec(trim_spec(input)) is None,
        ResolveStep::UnknownId(id) => parse_id_spec(trim_spec(input)) == Some(id)
            && !actors.contains_key(id),
        ResolveStep::Resolved(a) => parse_id_spec(trim_spec(input)) == Some(a.id)
            && actors.contains_key(a.id) && actors[a.id] == a,
        _ => false,
    }
}

/// Law: when the normalized query is nonempty and exactly one stored actor
/// matches it, a name step obeying the step contract can only resolve, and
/// only to that actor: it can be neither ambiguous nor a suggestion list.
pub proof fn lemma_unique_match_resolves(
    actors: Map<usize, Actor>,
    input: Seq<char>,
    step: ResolveStep,
    a: Actor,
)
    requires
        name_step_ok(actors, input, step),
        normalize_spec(input).len() > 0,
        actors.values().contains(a),
        name_matches(a.name@, input),
        forall|b: Actor|
            #[trigger] actors.values().contains(b) && name_matches(b.name@, input) ==> b == a,
    ensures
        step matches ResolveStep::Resolved(r) && r == a,
{
    match step {
        ResolveStep::Resolved(r) => {
            assert(r == a);
        },
        ResolveStep::Ambiguous(v) => {
            assert(v@.contains(v@[0]));
            assert(v@.contains(v@[1]));
            assert(v@[0] == a && v@[1] == a);
            assert(false);
        },
        ResolveStep::Suggestions(_) => {
            assert(false);
        },
        ResolveStep::InvalidQuery => {
            assert(false);
        },
        ResolveStep::UnknownId(_) => {
            assert(false);
        },
    }
}

/// One step of the interactive resolution: feeds one line of caller input
/// to the current state and reports what it settled. A name that matches
/// exactly one actor resolves; several homonyms are handed back, each once,
/// for identifier-based disambiguation; none yields fuzzy suggestions; an
/// empty or unparseable line is rejected as invalid and re-prompted. The
/// table must file every record under its own identifier.
pub fn get_unique_actor(
    state: &ResolverState,
    input: &str,
    actors: &HashMap<usize, Actor>,
) -> (step: ResolveStep)
    requires
        actors_keyed(actors@),
    ensures
        *state is AwaitingName ==> name_step_ok(actors@, input@, step),
        *state is AwaitingDisambiguationId ==> id_step_ok(actors@, input@, step),
{
    match state {
        ResolverState::AwaitingName => {
            let nq = normalize_query(input);
            if nq.as_str().is_empty() {
                let step = ResolveStep::InvalidQuery;
                proof {
                    assert(name_step_ok(actors@, input@, step));
                }
                return step;
            }
            let mut selected = get_actor_by_name(actors, input);
            if selected.len() == 1 {
                let ghost sel = selected@;
                let a = selected.remove(0);
                proof {
                    assert(sel.contains(a)) by {
                        assert(sel[0] == a);
                    }
                    assert forall|b: Actor|
                        #[trigger] actors@.values().contains(b) && name_matches(b.name@, input@)
                        implies b == a by {
                        assert(sel.contains(b));
                        let j = choose|j: int| 0 <= j < sel.len() && #[trigger] sel[j] == b;
                        assert(j == 0);
                    }
                }
                let step = ResolveStep::Resolved(a);
                proof {
                    assert(name_step_ok(actors@, input@, step));
                }
                step
            } else if selected.len() == 0 {
                let entries = table_values(actors);
                let mut names: Vec<String> = Vec::new();
                let mut j: usize = 0;
                while j < entries.len()
                    invariant
                        j <= entries@.len(),
                        names@.len() == j,
                        forall|t: int| 0 <= t < j ==> #[trigger] names@[t] == entries@[t].name,
                    decreases entries@.len() - j,
                {
                    names.push(entries[j].name.clone());
                    j += 1;
                }
                let sug = fuzzy_search_actor(&names, nq.as_str());
                proof {
                    assert forall|b: Actor| #[trigger]
                        actors@.values().contains(b) implies !name_matches(b.name@, input@) by {
                        if name_matches(b.name@, input@) {
                            assert(selected@.contains(b));
                        }
                    }
                    lemma_corpus(actors@, names@, entries@);
                    let picked = choose|picked: Seq<usize>| #[trigger] top_scores_picked(
                        names@,
                        nq@,
                        sug@,
                        picked,
                    );
                    assert(top_scores_picked(names@, normalize_spec(input@), sug@, picked));
                    assert(sug@.len() == (if distinct_names(names@).len() < 3 {
                        distinct_names(names@).len() as int
                    } else {
                        3
                    }));
                }
                proof {
                    assert(suggestions_ok(actors@, input@, sug@));
                }
                let step = ResolveStep::Suggestions(sug);
                proof {
                    assert(name_step_ok(actors@, input@, step));
                }
                step
            } else {
                proof {
                    assert(selected@.no_duplicates());
                }
                let step = ResolveStep::Ambiguous(selected);
                proof {
                    assert(name_step_ok(actors@, input@, step));
                }
                step
            }
        },
        ResolverState::AwaitingDisambiguationId => {
            match parse_actor_id(input) {
                None => {
                    let step = ResolveStep::InvalidQuery;
                    proof {
                        assert(id_step_ok(actors@, input@, step));
                    }
                    step
                },
                Some(id) => match get_actor_by_id(actors, id) {
                    Some(a) => {
                        proof {
                            assert(a.id == id);
                        }
                        let step = ResolveStep::Resolved(a);
                        proof {
                            assert(id_step_ok(actors@, input@, step));
                        }
                        step
                    },
                    None => {
                        let step = ResolveStep::UnknownId(id);
                        proof {
                            assert(id_step_ok(actors@, input@, step));
                        }
                        step
                    },
                },
            }
        },
    }
}

} // verus!
