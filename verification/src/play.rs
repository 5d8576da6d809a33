use vstd::prelude::*;

use crate::array::Board;
use crate::array::BoardShape;

verus! {

/// Two consecutive letters of a digested message.
#[derive(Clone, Copy, Debug)]
#[verifier::ext_equal]
pub struct PlayfairPair {
    pub x: char,
    pub y: char,
}

impl PlayfairPair {
    /// The pair of two letters, in order.
    pub open spec fn make(x: char, y: char) -> PlayfairPair {
        PlayfairPair { x, y }
    }
}

/// The direction of a transformation.
#[allow(non_camel_case_types)]
#[derive(Clone, Copy, PartialEq, Eq, Structural, Debug)]
pub enum PlayfairMethod {
    DECODE,
    ENCODE,
}

// ---------------------------------------------------------------------------
// The cipher alphabet: the 25 uppercase letters A-Z with J left out.
// ---------------------------------------------------------------------------

/// Whether a character belongs to the cipher alphabet.
pub open spec fn is_cipher_letter(c: char) -> bool {
    'A' <= c && c <= 'Z' && c != 'J'
}

/// The alphabet letter at index `i` (0-based), in alphabetic order: the code
/// points 65 ('A') through 90 ('Z') with 74 ('J') skipped.
pub open spec fn alphabet_char(i: int) -> char {
    if i < 9 {
        (65 + i) as char
    } else {
        (66 + i) as char
    }
}

/// The 25 letters of the cipher alphabet, in alphabetic order.
pub open spec fn alphabet() -> Seq<char> {
    Seq::new(25, |i: int| alphabet_char(i))
}

/// The alphabet enumerates exactly the cipher letters, each once.
pub proof fn lemma_alphabet_facts()
    ensures
        forall|i: int| 0 <= i < 25 ==> is_cipher_letter(#[trigger] alphabet()[i]),
        forall|ch: char| #[trigger] is_cipher_letter(ch) ==> alphabet().contains(ch),
        alphabet().no_duplicates(),
{
    assert forall|i: int| 0 <= i < 25 implies is_cipher_letter(#[trigger] alphabet()[i]) by {
        assert(alphabet()[i] == alphabet_char(i));
    }
    assert forall|ch: char| #[trigger] is_cipher_letter(ch) implies alphabet().contains(ch) by {
        let n = ch as int;
        let i: int = if n < 74 {
            n - 65
        } else {
            n - 66
        };
        assert(alphabet()[i] == alphabet_char(i));
        assert(alphabet_char(i) == ch);
    }
    assert forall|i: int, j: int| 0 <= i < j < 25 implies alphabet()[i] != alphabet()[j] by {
        assert(alphabet()[i] == alphabet_char(i));
        assert(alphabet()[j] == alphabet_char(j));
        assert(alphabet_char(i) as int != alphabet_char(j) as int);
    }
}

/// The alphabet letter at index `i`, as executable code.
fn alphabet_letter(i: usize) -> (ch: char)
    requires
        i < 25,
    ensures
        ch == alphabet_char(i as int),
{
    let v: u8 = if i < 9 {
        65 + (i as u8)
    } else {
        66 + (i as u8)
    };
    v as char
}

// ---------------------------------------------------------------------------
// Normalization of input text.
// ---------------------------------------------------------------------------

/// ASCII uppercase: lowercase letters are raised, all else is untouched.
pub open spec fn to_upper(c: char) -> char {
    if 'a' <= c && c <= 'z' {
        ((c as int) - 32) as char
    } else {
        c
    }
}

/// ASCII uppercase, as executable code.
fn upper_char(c: char) -> (u: char)
    ensures
        u == to_upper(c),
{
    let v = c as u32;
    if 97 <= v && v <= 122 {
        ((v - 32) as u8) as char
    } else {
        c
    }
}

/// Whether a character is a cipher letter, as executable code.
fn is_letter(c: char) -> (r: bool)
    ensures
        r == is_cipher_letter(c),
{
    let v = c as u32;
    65 <= v && v <= 90 && v != 74
}

/// A phrase normalized for key-square construction: spaces dropped, every
/// remaining character uppercased.
pub open spec fn normalize(s: Seq<char>) -> Seq<char>
    decreases s.len(),
{
    if s.len() == 0 {
        Seq::empty()
    } else {
        let rest = normalize(s.drop_last());
        if s.last() == ' ' {
            rest
        } else {
            rest.push(to_upper(s.last()))
        }
    }
}

/// A message filtered for digestion: uppercased, with every character
/// outside the cipher alphabet dropped.
pub open spec fn filter_letters(s: Seq<char>) -> Seq<char>
    decreases s.len(),
{
    if s.len() == 0 {
        Seq::empty()
    } else {
        let rest = filter_letters(s.drop_last());
        let u = to_upper(s.last());
        if is_cipher_letter(u) {
            rest.push(u)
        } else {
            rest
        }
    }
}

/// Every character of a filtered message is a cipher letter.
pub proof fn lemma_filter_letters_cipher(s: Seq<char>)
    ensures
        forall|i: int| 0 <= i < filter_letters(s).len() ==> is_cipher_letter(
            #[trigger] filter_letters(s)[i],
        ),
    decreases s.len(),
{
    if s.len() == 0 {
    } else {
        lemma_filter_letters_cipher(s.drop_last());
        let rest = filter_letters(s.drop_last());
        let u = to_upper(s.last());
        assert forall|i: int| 0 <= i < filter_letters(s).len() implies is_cipher_letter(
            #[trigger] filter_letters(s)[i],
        ) by {
            if is_cipher_letter(u) && i == rest.len() {
                assert(filter_letters(s)[i] == u);
            } else {
                assert(filter_letters(s)[i] == rest[i]);
            }
        }
    }
}

/// A message of cipher letters passes the filter unchanged.
pub proof fn lemma_filter_letters_identity(s: Seq<char>)
    requires
        forall|i: int| 0 <= i < s.len() ==> is_cipher_letter(#[trigger] s[i]),
    ensures
        filter_letters(s) == s,
    decreases s.len(),
{
    if s.len() == 0 {
        assert(filter_letters(s) =~= s);
    } else {
        assert(forall|i: int| 0 <= i < s.drop_last().len() ==> is_cipher_letter(
            #[trigger] s.drop_last()[i],
        ));
        lemma_filter_letters_identity(s.drop_last());
        assert(is_cipher_letter(s.last()));
        assert(to_upper(s.last()) == s.last());
        assert(filter_letters(s) =~= s);
    }
}

// ---------------------------------------------------------------------------
// Key-square letters: first occurrences of the phrase, then the rest of the
// alphabet.
// ---------------------------------------------------------------------------

/// The first occurrence of each character of `s`, in order of appearance.
pub open spec fn dedup(s: Seq<char>) -> Seq<char>
    decreases s.len(),
{
    if s.len() == 0 {
        Seq::empty()
    } else {
        let rest = dedup(s.drop_last());
        if rest.contains(s.last()) {
            rest
        } else {
            rest.push(s.last())
        }
    }
}

/// Deduplication of an extended sequence: the new character joins the result
/// only when it is not already present.
proof fn lemma_dedup_push(s: Seq<char>, c: char)
    ensures
        dedup(s.push(c)) == (if dedup(s).contains(c) {
            dedup(s)
        } else {
            dedup(s).push(c)
        }),
{
    assert(s.push(c).drop_last() =~= s);
    assert(s.push(c).last() == c);
}

/// Deduplication keeps exactly the characters of its input, each once.
pub proof fn lemma_dedup_props(s: Seq<char>)
    ensures
        dedup(s).no_duplicates(),
        forall|c: char| #[trigger] dedup(s).contains(c) == s.contains(c),
    decreases s.len(),
{
    if s.len() == 0 {
        assert forall|c: char| #[trigger] dedup(s).contains(c) == s.contains(c) by {
            assert(!s.contains(c));
            assert(!dedup(s).contains(c));
        }
    } else {
        let t = s.drop_last();
        let x = s.last();
        lemma_dedup_props(t);
        let rest = dedup(t);
        assert forall|c: char| #[trigger] dedup(s).contains(c) == s.contains(c) by {
            assert(s.contains(c) == (t.contains(c) || x == c)) by {
                if t.contains(c) {
                    let k = choose|k: int| 0 <= k < t.len() && t[k] == c;
                    assert(s[k] == c);
                }
                if x == c {
                    assert(s[s.len() - 1] == c);
                }
                if s.contains(c) {
                    let k = choose|k: int| 0 <= k < s.len() && s[k] == c;
                    if k < s.len() - 1 {
                        assert(t[k] == c);
                    }
                }
            }
            if rest.contains(x) {
                assert(dedup(s) == rest);
            } else {
                assert(dedup(s) == rest.push(x));
                assert(rest.push(x).contains(c) == (rest.contains(c) || x == c)) by {
                    if rest.contains(c) {
                        let k = choose|k: int| 0 <= k < rest.len() && rest[k] == c;
                        assert(rest.push(x)[k] == c);
                    }
                    if x == c {
                        assert(rest.push(x)[rest.len() as int] == c);
                    }
                    if rest.push(x).contains(c) {
                        let k = choose|k: int| 0 <= k < rest.push(x).len() && rest.push(x)[k] == c;
                        if k < rest.len() {
                            assert(rest[k] == c);
                        }
                    }
                }
            }
        }
        if !rest.contains(x) {
            assert forall|i: int, j: int| 0 <= i < j < dedup(s).len() implies dedup(s)[i]
                != dedup(s)[j] by {
                if j == dedup(s).len() - 1 {
                    if rest[i] == x {
                        assert(rest.contains(x));
                    }
                }
            }
        }
    }
}

/// The letters of the key square built from a phrase: first occurrences of
/// the normalized phrase, then the remaining alphabet letters in order.
pub open spec fn key_letters(phrase: Seq<char>) -> Seq<char> {
    dedup(normalize(phrase) + alphabet())
}

/// When a phrase yields the full 25 letters, those letters cover the cipher
/// alphabet exactly: each key letter is a cipher letter, each cipher letter
/// appears, and none appears twice.
pub proof fn lemma_key_letters_cover(phrase: Seq<char>)
    requires
        key_letters(phrase).len() == 25,
    ensures
        key_letters(phrase).no_duplicates(),
        forall|ch: char| #[trigger] is_cipher_letter(ch) ==> key_letters(phrase).contains(ch),
        forall|i: int| 0 <= i < 25 ==> is_cipher_letter(#[trigger] key_letters(phrase)[i]),
{
    broadcast use vstd::seq_lib::seq_to_set_is_finite;
    broadcast use vstd::set::group_set_axioms;

    let input = normalize(phrase) + alphabet();
    let key = key_letters(phrase);
    lemma_dedup_props(input);
    lemma_alphabet_facts();
    assert forall|ch: char| #[trigger] is_cipher_letter(ch) implies key.contains(ch) by {
        let k = choose|k: int| 0 <= k < alphabet().len() && alphabet()[k] == ch;
        assert(input[normalize(phrase).len() + k] == ch);
        assert(input.contains(ch));
    }
    assert forall|i: int| 0 <= i < 25 implies is_cipher_letter(#[trigger] key[i]) by {
        if !is_cipher_letter(key[i]) {
            let u = key[i];
            key.unique_seq_to_set();
            alphabet().unique_seq_to_set();
            assert(key.to_set().len() == 25);
            assert(alphabet().to_set().len() == 25);
            assert(alphabet().to_set().subset_of(key.to_set())) by {
                assert forall|ch: char| alphabet().to_set().contains(ch) implies key.to_set()
                    .contains(ch) by {
                    assert(alphabet().contains(ch));
                    assert(is_cipher_letter(ch));
                    assert(key.contains(ch));
                }
            }
            assert(key.contains(u));
            assert(key.to_set().contains(u));
            assert(!alphabet().to_set().contains(u)) by {
                if alphabet().contains(u) {
                    let k = choose|k: int| 0 <= k < alphabet().len() && alphabet()[k] == u;
                    assert(is_cipher_letter(alphabet()[k]));
                }
            }
            alphabet().to_set().lemma_subset_not_in_lt(key.to_set(), u);
        }
    }
}

/// The key letters number exactly 25 precisely when every character of the
/// normalized phrase lies in the cipher alphabet: one stray character makes
/// construction fail.
pub proof fn lemma_key_letters_full(phrase: Seq<char>)
    ensures
        key_letters(phrase).len() == 25 <==> (forall|i: int|
            0 <= i < normalize(phrase).len() ==> is_cipher_letter(
                #[trigger] normalize(phrase)[i],
            )),
{
    broadcast use vstd::seq_lib::seq_to_set_is_finite;
    broadcast use vstd::set::group_set_axioms;

    let norm = normalize(phrase);
    let input = norm + alphabet();
    let key = key_letters(phrase);
    lemma_dedup_props(input);
    lemma_alphabet_facts();
    key.unique_seq_to_set();
    alphabet().unique_seq_to_set();
    assert(alphabet().to_set().subset_of(key.to_set())) by {
        assert forall|ch: char| alphabet().to_set().contains(ch) implies key.to_set().contains(
            ch,
        ) by {
            let k = choose|k: int| 0 <= k < alphabet().len() && alphabet()[k] == ch;
            assert(input[norm.len() + k] == ch);
            assert(input.contains(ch));
            assert(key.contains(ch));
        }
    }
    vstd::set_lib::lemma_len_subset(alphabet().to_set(), key.to_set());
    assert(key.len() >= 25);
    if key.len() == 25 {
        lemma_key_letters_cover(phrase);
        assert forall|i: int| 0 <= i < norm.len() implies is_cipher_letter(#[trigger] norm[i]) by {
            assert(input[i] == norm[i]);
            assert(input.contains(norm[i]));
            assert(key.contains(norm[i]));
            let k = choose|k: int| 0 <= k < key.len() && key[k] == norm[i];
            assert(is_cipher_letter(key[k]));
        }
    }
    if forall|i: int| 0 <= i < norm.len() ==> is_cipher_letter(#[trigger] norm[i]) {
        assert(key.to_set().subset_of(alphabet().to_set())) by {
            assert forall|ch: char| key.to_set().contains(ch) implies alphabet().to_set().contains(
                ch,
            ) by {
                assert(key.contains(ch));
                assert(input.contains(ch));
                let k = choose|k: int| 0 <= k < input.len() && input[k] == ch;
                if k < norm.len() {
                    assert(norm[k] == ch);
                } else {
                    assert(alphabet()[k - norm.len()] == ch);
                    assert(is_cipher_letter(alphabet()[k - norm.len()]));
                }
                assert(alphabet().contains(ch));
            }
        }
        vstd::set_lib::lemma_len_subset(key.to_set(), alphabet().to_set());
        assert(key.len() <= 25);
    }
}

// ---------------------------------------------------------------------------
// The pair transformation.
// ---------------------------------------------------------------------------

/// The next index along a row or column, wrapping from the last cell to the
/// first.
pub open spec fn shift_fwd(i: int) -> int {
    if i == 4 {
        0
    } else {
        i + 1
    }
}

/// The previous index along a row or column, wrapping from the first cell to
/// the last.
pub open spec fn shift_back(i: int) -> int {
    if i == 0 {
        4
    } else {
        i - 1
    }
}

/// One encoded pair. Letters of a shared column step one row down, letters
/// of a shared row step one column right, and rectangle corners swap
/// columns; the shared-column rule is checked first, so a degenerate pair of
/// one letter twice steps down like a shared column.
pub open spec fn encode_pair(b: Board, p: PlayfairPair) -> PlayfairPair {
    let r1 = b.row_of(p.x);
    let c1 = b.col_of(p.x);
    let r2 = b.row_of(p.y);
    let c2 = b.col_of(p.y);
    if c1 == c2 {
        PlayfairPair { x: b.at(shift_fwd(r1), c1), y: b.at(shift_fwd(r2), c2) }
    } else if r1 == r2 {
        PlayfairPair { x: b.at(r1, shift_fwd(c1)), y: b.at(r2, shift_fwd(c2)) }
    } else {
        PlayfairPair { x: b.at(r1, c2), y: b.at(r2, c1) }
    }
}

/// One decoded pair: the exact inverse steps, with the rectangle rule its
/// own inverse.
pub open spec fn decode_pair(b: Board, p: PlayfairPair) -> PlayfairPair {
    let r1 = b.row_of(p.x);
    let c1 = b.col_of(p.x);
    let r2 = b.row_of(p.y);
    let c2 = b.col_of(p.y);
    if c1 == c2 {
        PlayfairPair { x: b.at(shift_back(r1), c1), y: b.at(shift_back(r2), c2) }
    } else if r1 == r2 {
        PlayfairPair { x: b.at(r1, shift_back(c1)), y: b.at(r2, shift_back(c2)) }
    } else {
        PlayfairPair { x: b.at(r1, c2), y: b.at(r2, c1) }
    }
}

/// One transformed pair, by direction.
pub open spec fn transform_pair(b: Board, p: PlayfairPair, m: PlayfairMethod) -> PlayfairPair {
    match m {
        PlayfairMethod::ENCODE => encode_pair(b, p),
        PlayfairMethod::DECODE => decode_pair(b, p),
    }
}

/// The letter one step along its own row: right when encoding, left when
/// decoding, wrapping at the edges.
pub open spec fn row_step(b: Board, ch: char, m: PlayfairMethod) -> char {
    match m {
        PlayfairMethod::ENCODE => b.at(b.row_of(ch), shift_fwd(b.col_of(ch))),
        PlayfairMethod::DECODE => b.at(b.row_of(ch), shift_back(b.col_of(ch))),
    }
}

/// The letter one step along its own column: down when encoding, up when
/// decoding, wrapping at the edges.
pub open spec fn col_step(b: Board, ch: char, m: PlayfairMethod) -> char {
    match m {
        PlayfairMethod::ENCODE => b.at(shift_fwd(b.row_of(ch)), b.col_of(ch)),
        PlayfairMethod::DECODE => b.at(shift_back(b.row_of(ch)), b.col_of(ch)),
    }
}

/// The flat letter sequence that transforming a digested message yields:
/// each pair transformed in order, letters interleaved.
pub open spec fn transform_chars(b: Board, pairs: Seq<PlayfairPair>, m: PlayfairMethod) -> Seq<
    char,
> {
    Seq::new(
        (2 * pairs.len()) as nat,
        |i: int|
            if i % 2 == 0 {
                transform_pair(b, pairs[i / 2], m).x
            } else {
                transform_pair(b, pairs[i / 2], m).y
            },
    )
}

/// A message padded to even length with the filler letter.
pub open spec fn pad_even(s: Seq<char>) -> Seq<char> {
    if s.len() % 2 == 0 {
        s
    } else {
        s.push('X')
    }
}

/// Consecutive pairs of a message, in order: positions 0-1, 2-3, and so on.
/// A trailing odd letter is not paired.
pub open spec fn pairs_of(s: Seq<char>) -> Seq<PlayfairPair>
    decreases s.len(),
{
    if s.len() < 2 {
        Seq::empty()
    } else if s.len() % 2 == 1 {
        pairs_of(s.drop_last())
    } else {
        pairs_of(s.drop_last().drop_last()).push(
            PlayfairPair::make(s[s.len() - 2], s[s.len() - 1]),
        )
    }
}

/// The pairs of a message, pointwise: pair `i` holds the letters at
/// positions 2i and 2i+1.
pub proof fn lemma_pairs_of_index(s: Seq<char>)
    ensures
        pairs_of(s).len() == s.len() / 2,
        forall|i: int|
            0 <= i < s.len() / 2 ==> #[trigger] pairs_of(s)[i] == PlayfairPair::make(
                s[2 * i],
                s[2 * i + 1],
            ),
    decreases s.len(),
{
    if s.len() < 2 {
    } else if s.len() % 2 == 1 {
        let t = s.drop_last();
        lemma_pairs_of_index(t);
        assert(s.len() / 2 == t.len() / 2) by {
            vstd::arithmetic::div_mod::lemma_fundamental_div_mod(s.len() as int, 2);
            vstd::arithmetic::div_mod::lemma_fundamental_div_mod(t.len() as int, 2);
        }
        assert forall|i: int| 0 <= i < s.len() / 2 implies #[trigger] pairs_of(s)[i]
            == PlayfairPair::make(s[2 * i], s[2 * i + 1]) by {
            assert(pairs_of(s)[i] == pairs_of(t)[i]);
            assert(t[2 * i] == s[2 * i]);
            assert(t[2 * i + 1] == s[2 * i + 1]);
        }
    } else {
        let t = s.drop_last().drop_last();
        lemma_pairs_of_index(t);
        assert(t.len() == s.len() - 2);
        assert(s.len() / 2 == t.len() / 2 + 1) by {
            vstd::arithmetic::div_mod::lemma_fundamental_div_mod(s.len() as int, 2);
            vstd::arithmetic::div_mod::lemma_fundamental_div_mod(t.len() as int, 2);
        }
        assert forall|i: int| 0 <= i < s.len() / 2 implies #[trigger] pairs_of(s)[i]
            == PlayfairPair::make(s[2 * i], s[2 * i + 1]) by {
            if i < t.len() / 2 {
                assert(pairs_of(s)[i] == pairs_of(t)[i]);
                assert(t[2 * i] == s[2 * i]);
                assert(t[2 * i + 1] == s[2 * i + 1]);
            } else {
                assert(pairs_of(s)[i] == PlayfairPair::make(s[s.len() - 2], s[s.len() - 1]));
                assert(2 * i == s.len() - 2);
            }
        }
    }
}

// ---------------------------------------------------------------------------
// The engine's data.
// ---------------------------------------------------------------------------

/// The cipher engine: a key square and the currently digested message.
#[derive(Debug)]
pub struct PlayfairState {
    pub board: Board,
    pub msg_digested: Vec<PlayfairPair>,
}

impl PlayfairState {
    /// The engine's invariant: the key square holds each of the 25 cipher
    /// letters exactly once, and every digested letter is a cipher letter.
    pub open spec fn wf(self) -> bool {
        &&& self.board.distinct()
        &&& forall|ch: char| #[trigger] is_cipher_letter(ch) ==> self.board.has(ch)
        &&& forall|r: int, c: int|
            0 <= r < 5 && 0 <= c < 5 ==> is_cipher_letter(#[trigger] self.board.at(r, c))
        &&& forall|i: int|
            0 <= i < self.msg_digested@.len() ==> is_cipher_letter(
                #[trigger] self.msg_digested@[i].x,
            ) && is_cipher_letter(self.msg_digested@[i].y)
    }

    /// Build an engine from a secret phrase. Construction succeeds exactly
    /// when the phrase's letters and the alphabet fallback yield 25 unique
    /// letters; the grid then holds them row-major.
    pub fn init(phrase: &str) -> (result: Result<PlayfairState, String>)
        ensures
            match result {
                Ok(st) => {
                    &&& key_letters(phrase@).len() == 25
                    &&& forall|r: int, c: int|
                        0 <= r < 5 && 0 <= c < 5 ==> st.board.at(r, c) == key_letters(phrase@)[r
                            * 5 + c]
                    &&& st.msg_digested@.len() == 0
                    &&& st.wf()
                },
                Err(msg) => {
                    &&& key_letters(phrase@).len() != 25
                    &&& msg@ == "Choose another phrase!"@
                },
            },
    {
        let mut data: Vec<char> = Vec::new();
        let n = phrase.unicode_len();
        let mut i: usize = 0;
        while i < n
            invariant
                i <= n,
                n == phrase@.len(),
                data@ == dedup(normalize(phrase@.take(i as int))),
            decreases n - i,
        {
            let c = phrase.get_char(i);
            proof {
                assert(phrase@.take(i as int + 1).drop_last() =~= phrase@.take(i as int));
                assert(phrase@.take(i as int + 1).last() == c);
            }
            if c != ' ' {
                let u = upper_char(c);
                proof {
                    lemma_dedup_push(normalize(phrase@.take(i as int)), u);
                }
                if !vec_contains(&data, u) {
                    data.push(u);
                }
            }
            i += 1;
        }
        proof {
            assert(phrase@.take(n as int) =~= phrase@);
            assert(normalize(phrase@) + alphabet().take(0) =~= normalize(phrase@));
        }
        let ghost norm = normalize(phrase@);
        let mut k: usize = 0;
        while k < 25
            invariant
                k <= 25,
                norm == normalize(phrase@),
                data@ == dedup(norm + alphabet().take(k as int)),
            decreases 25 - k,
        {
            let ch = alphabet_letter(k);
            proof {
                assert((norm + alphabet().take(k as int + 1)).drop_last() =~= norm
                    + alphabet().take(k as int));
                assert((norm + alphabet().take(k as int + 1)).last() == ch);
            }
            if !vec_contains(&data, ch) {
                data.push(ch);
            }
            k += 1;
        }
        proof {
            assert(norm + alphabet().take(25) =~= norm + alphabet());
        }
        if data.len() == 25 {
            let board = Board::init(data.as_slice());
            let st = PlayfairState { board, msg_digested: Vec::new() };
            proof {
                lemma_key_letters_cover(phrase@);
                assert(st.wf()) by {
                    lemma_board_from_key_letters(st.board, phrase@);
                }
            }
            Ok(st)
        } else {
            Err("Choose another phrase!".to_owned())
        }
    }

    /// Both letters of a pair moved one step along their own rows.
    fn process_pair_row(&self, pair: [char; 2], method: &PlayfairMethod) -> (out: [char; 2])
        requires
            self.board.distinct(),
            self.board.has(pair@[0]),
            self.board.has(pair@[1]),
        ensures
            out@[0] == row_step(self.board, pair@[0], *method),
            out@[1] == row_step(self.board, pair@[1], *method),
    {
        let mut data: [char; 2] = [pair[0]; 2];
        let mut i: usize = 0;
        while i < 2
            invariant
                i <= 2,
                self.board.distinct(),
                self.board.has(pair@[0]),
                self.board.has(pair@[1]),
                forall|k: int| 0 <= k < i ==> data@[k] == row_step(self.board, pair@[k], *method),
            decreases 2 - i,
        {
            let p = self.board.get_position(pair[i]).unwrap();
            proof {
                self.board.lemma_at_pos(p@[0] as int, p@[1] as int);
            }
            let updated = match method {
                PlayfairMethod::ENCODE => {
                    if p[1] == 4 {
                        self.board.get_letter(p[0], 0)
                    } else {
                        self.board.get_letter(p[0], p[1] + 1)
                    }
                },
                PlayfairMethod::DECODE => {
                    if p[1] == 0 {
                        self.board.get_letter(p[0], 4)
                    } else {
                        self.board.get_letter(p[0], p[1] - 1)
                    }
                },
            };
            data[i] = updated;
            i += 1;
        }
        data
    }

    /// Both letters of a pair moved one step along their own columns.
    fn process_pair_column(&self, pair: [char; 2], method: &PlayfairMethod) -> (out: [char; 2])
        requires
            self.board.distinct(),
            self.board.has(pair@[0]),
            self.board.has(pair@[1]),
        ensures
            out@[0] == col_step(self.board, pair@[0], *method),
            out@[1] == col_step(self.board, pair@[1], *method),
    {
        let mut data: [char; 2] = [pair[0]; 2];
        let mut i: usize = 0;
        while i < 2
            invariant
                i <= 2,
                self.board.distinct(),
                self.board.has(pair@[0]),
                self.board.has(pair@[1]),
                forall|k: int| 0 <= k < i ==> data@[k] == col_step(self.board, pair@[k], *method),
            decreases 2 - i,
        {
            let p = self.board.get_position(pair[i]).unwrap();
            proof {
                self.board.lemma_at_pos(p@[0] as int, p@[1] as int);
            }
            let updated = match method {
                PlayfairMethod::ENCODE => {
                    if p[0] == 4 {
                        self.board.get_letter(0, p[1])
                    } else {
                        self.board.get_letter(p[0] + 1, p[1])
                    }
                },
                PlayfairMethod::DECODE => {
                    if p[0] == 0 {
                        self.board.get_letter(4, p[1])
                    } else {
                        self.board.get_letter(p[0] - 1, p[1])
                    }
                },
            };
            data[i] = updated;
            i += 1;
        }
        data
    }

    /// A rectangle pair with the two column indices swapped; its own inverse.
    fn process_pair_rectangle(&self, pair: [char; 2]) -> (out: [char; 2])
        requires
            self.board.distinct(),
            self.board.has(pair@[0]),
            self.board.has(pair@[1]),
        ensures
            out@[0] == self.board.at(self.board.row_of(pair@[0]), self.board.col_of(pair@[1])),
            out@[1] == self.board.at(self.board.row_of(pair@[1]), self.board.col_of(pair@[0])),
    {
        let mut data: [char; 2] = [pair[0]; 2];
        let p1 = self.board.get_position(pair[0]).unwrap();
        let p2 = self.board.get_position(pair[1]).unwrap();
        proof {
            self.board.lemma_at_pos(p1@[0] as int, p1@[1] as int);
            self.board.lemma_at_pos(p2@[0] as int, p2@[1] as int);
        }
        data[0] = self.board.get_letter(p1[0], p2[1]);
        data[1] = self.board.get_letter(p2[0], p1[1]);
        data
    }

    /// One pair transformed by the rule its geometry selects.
    fn process_pair(&self, pair: [char; 2], method: &PlayfairMethod) -> (out: [char; 2])
        requires
            self.board.distinct(),
            self.board.has(pair@[0]),
            self.board.has(pair@[1]),
        ensures
            ({
                let t = transform_pair(
                    self.board,
                    PlayfairPair { x: pair@[0], y: pair@[1] },
                    *method,
                );
                out@[0] == t.x && out@[1] == t.y
            }),
    {
        let shape = self.board.get_shape(pair);
        match shape {
            BoardShape::COLUMN => self.process_pair_column(pair, method),
            BoardShape::ROW => self.process_pair_row(pair, method),
            BoardShape::RECTANGLE => self.process_pair_rectangle(pair),
        }
    }

    /// Filtered characters of a message: uppercased, everything outside the
    /// cipher alphabet dropped.
    fn filter(&self, msg: &str) -> (out: Vec<char>)
        ensures
            out@ == filter_letters(msg@),
    {
        let mut out: Vec<char> = Vec::new();
        let n = msg.unicode_len();
        let mut i: usize = 0;
        while i < n
            invariant
                i <= n,
                n == msg@.len(),
                out@ == filter_letters(msg@.take(i as int)),
            decreases n - i,
        {
            let c = msg.get_char(i);
            proof {
                assert(msg@.take(i as int + 1).drop_last() =~= msg@.take(i as int));
                assert(msg@.take(i as int + 1).last() == c);
            }
            let u = upper_char(c);
            if is_letter(u) {
                out.push(u);
            }
            i += 1;
        }
        proof {
            assert(msg@.take(n as int) =~= msg@);
        }
        out
    }

    /// Digest a message: filter it, pad it to even length with the filler
    /// letter, and store its consecutive pairs as the engine's current
    /// message, discarding any earlier one. The new state depends on the
    /// board and the new message alone.
    pub fn digest(&mut self, message: &str)
        ensures
            final(self).board == old(self).board,
            final(self).msg_digested@ == pairs_of(pad_even(filter_letters(message@))),
            old(self).wf() ==> final(self).wf(),
    {
        let mut data = self.filter(message);
        if data.len() % 2 != 0 {
            data.push('X');
        }
        assert(data@ == pad_even(filter_letters(message@)));
        let ghost target = pairs_of(data@);
        let half = data.len() / 2;
        proof {
            lemma_pairs_of_index(data@);
            vstd::arithmetic::div_mod::lemma_fundamental_div_mod(data@.len() as int, 2);
            assert(2 * (half as int) == data@.len());
            assert(target.len() == half as int);
        }
        let mut pairs: Vec<PlayfairPair> = Vec::new();
        let mut k: usize = 0;
        while k < half
            invariant
                k <= half,
                2 * (half as int) == data@.len(),
                data@.len() <= usize::MAX,
                target == pairs_of(data@),
                target.len() == half as int,
                pairs@ == target.take(k as int),
            decreases half - k,
        {
            proof {
                lemma_pairs_of_index(data@);
                assert(2 * k + 1 < data@.len());
            }
            let x = data[2 * k];
            let y = data[2 * k + 1];
            pairs.push(PlayfairPair { x, y });
            proof {
                assert(target[k as int] == PlayfairPair::make(
                    data@[2 * (k as int)],
                    data@[2 * (k as int) + 1],
                ));
                assert(pairs@ =~= target.take(k as int + 1));
            }
            k += 1;
        }
        proof {
            assert(target.take(half as int) =~= target);
        }
        self.msg_digested = pairs;
        proof {
            if old(self).wf() {
                lemma_digest_wf(*self, message@);
            }
        }
    }

    /// Transform the digested message, pair by pair in order, into a flat
    /// output string.
    pub fn playfair(&mut self, method: PlayfairMethod) -> (data: String)
        requires
            old(self).wf(),
        ensures
            *final(self) == *old(self),
            data@ == transform_chars(old(self).board, old(self).msg_digested@, method),
    {
        let mut data = String::new();
        let ghost out_seq = transform_chars(self.board, self.msg_digested@, method);
        let n = self.msg_digested.len();
        let mut k: usize = 0;
        while k < n
            invariant
                k <= n,
                *self == *old(self),
                old(self).wf(),
                n == self.msg_digested@.len(),
                out_seq == transform_chars(self.board, self.msg_digested@, method),
                data@ == out_seq.take(2 * k as int),
            decreases n - k,
        {
            let pair = self.msg_digested[k];
            proof {
                assert(pair == old(self).msg_digested@[k as int]);
                assert(is_cipher_letter(old(self).msg_digested@[k as int].x));
                assert(is_cipher_letter(old(self).msg_digested@[k as int].y));
            }
            let encoded = self.process_pair([pair.x, pair.y], &method);
            data.push(encoded[0]);
            data.push(encoded[1]);
            proof {
                assert(data@ =~= out_seq.take(2 * (k as int + 1)));
            }
            k += 1;
        }
        proof {
            assert(out_seq.take(2 * n as int) =~= out_seq);
        }
        data
    }
}

/// Law: alphabet completeness. When a phrase yields the full 25 key letters,
/// the board laid out from them holds every cipher letter exactly once: the
/// cells are distinct, each is a cipher letter, and each cipher letter has a
/// cell.
pub proof fn lemma_board_from_key_letters(b: Board, phrase: Seq<char>)
    requires
        key_letters(phrase).len() == 25,
        forall|r: int, c: int|
            0 <= r < 5 && 0 <= c < 5 ==> b.at(r, c) == key_letters(phrase)[r * 5 + c],
    ensures
        b.distinct(),
        forall|ch: char| #[trigger] is_cipher_letter(ch) ==> b.has(ch),
        forall|r: int, c: int| 0 <= r < 5 && 0 <= c < 5 ==> is_cipher_letter(#[trigger] b.at(r, c)),
{
    let key = key_letters(phrase);
    lemma_key_letters_cover(phrase);
    assert forall|ch: char| #[trigger] is_cipher_letter(ch) implies b.has(ch) by {
        let k = choose|k: int| 0 <= k < key.len() && key[k] == ch;
        let r = k / 5;
        let c = k % 5;
        assert(0 <= r < 5 && 0 <= c < 5 && r * 5 + c == k) by (nonlinear_arith)
            requires
                0 <= k < 25,
                r == k / 5,
                c == k % 5,
        ;
        assert(b.at(r, c) == ch);
    }
}

// ---------------------------------------------------------------------------
// Laws of the transformation.
// ---------------------------------------------------------------------------

/// Law: filtering. Whatever the raw message holds, every letter of its
/// digested pairs is a cipher letter.
pub proof fn lemma_digest_letters(m: Seq<char>)
    ensures
        ({
            let pairs = pairs_of(pad_even(filter_letters(m)));
            forall|k: int|
                0 <= k < pairs.len() ==> is_cipher_letter(#[trigger] pairs[k].x)
                    && is_cipher_letter(pairs[k].y)
        }),
{
    let padded = pad_even(filter_letters(m));
    let pairs = pairs_of(padded);
    lemma_filter_letters_cipher(m);
    lemma_pairs_of_index(padded);
    vstd::arithmetic::div_mod::lemma_fundamental_div_mod(padded.len() as int, 2);
    assert forall|k: int| 0 <= k < pairs.len() implies is_cipher_letter(#[trigger] pairs[k].x)
        && is_cipher_letter(pairs[k].y) by {
        assert(2 * k + 1 < padded.len());
        assert(pairs[k].x == padded[2 * k]);
        assert(pairs[k].y == padded[2 * k + 1]);
    }
}

/// An engine whose board is well formed and whose digested pairs came from a
/// digestion is well formed as a whole.
proof fn lemma_digest_wf(st: PlayfairState, message: Seq<char>)
    requires
        st.board.distinct(),
        forall|ch: char| #[trigger] is_cipher_letter(ch) ==> st.board.has(ch),
        forall|r: int, c: int|
            0 <= r < 5 && 0 <= c < 5 ==> is_cipher_letter(#[trigger] st.board.at(r, c)),
        st.msg_digested@ == pairs_of(pad_even(filter_letters(message))),
    ensures
        st.wf(),
{
    lemma_digest_letters(message);
    assert forall|i: int| 0 <= i < st.msg_digested@.len() implies is_cipher_letter(
        #[trigger] st.msg_digested@[i].x,
    ) && is_cipher_letter(st.msg_digested@[i].y) by {
        let digested = pairs_of(pad_even(filter_letters(message)));
        assert(st.msg_digested@[i] == digested[i]);
        assert(is_cipher_letter(digested[i].x));
        assert(is_cipher_letter(digested[i].y));
    }
}

/// Law: wrap-around at the edges. A letter in the last column, row-encoded,
/// lands in column 0 of its own row, and a letter in column 0, row-decoded,
/// lands in the last column; rows wrap the same way under the column rules.
pub proof fn lemma_wrap_around(b: Board, ch: char)
    requires
        b.distinct(),
        b.has(ch),
    ensures
        b.col_of(ch) == 4 ==> b.col_of(row_step(b, ch, PlayfairMethod::ENCODE)) == 0,
        b.col_of(ch) == 0 ==> b.col_of(row_step(b, ch, PlayfairMethod::DECODE)) == 4,
        b.row_of(row_step(b, ch, PlayfairMethod::ENCODE)) == b.row_of(ch),
        b.row_of(row_step(b, ch, PlayfairMethod::DECODE)) == b.row_of(ch),
        b.row_of(ch) == 4 ==> b.row_of(col_step(b, ch, PlayfairMethod::ENCODE)) == 0,
        b.row_of(ch) == 0 ==> b.row_of(col_step(b, ch, PlayfairMethod::DECODE)) == 4,
        b.col_of(col_step(b, ch, PlayfairMethod::ENCODE)) == b.col_of(ch),
        b.col_of(col_step(b, ch, PlayfairMethod::DECODE)) == b.col_of(ch),
{
    b.lemma_pos_valid(ch);
    let r = b.row_of(ch);
    let c = b.col_of(ch);
    b.lemma_at_pos(r, shift_fwd(c));
    b.lemma_at_pos(r, shift_back(c));
    b.lemma_at_pos(shift_fwd(r), c);
    b.lemma_at_pos(shift_back(r), c);
}

/// Law: the rectangle rule is an involution. For a pair whose letters share
/// neither row nor column, encoding twice returns the original pair.
pub proof fn lemma_rectangle_involution(b: Board, p: PlayfairPair)
    requires
        b.distinct(),
        b.has(p.x),
        b.has(p.y),
        b.row_of(p.x) != b.row_of(p.y),
        b.col_of(p.x) != b.col_of(p.y),
    ensures
        encode_pair(b, encode_pair(b, p)) == p,
{
    b.lemma_pos_valid(p.x);
    b.lemma_pos_valid(p.y);
    b.lemma_at_pos(b.row_of(p.x), b.col_of(p.y));
    b.lemma_at_pos(b.row_of(p.y), b.col_of(p.x));
    assert(encode_pair(b, encode_pair(b, p)) =~= p);
}

/// Law, pair by pair: decoding inverts encoding, and the encoded letters are
/// again letters of the board.
pub proof fn lemma_pair_round_trip(b: Board, p: PlayfairPair)
    requires
        b.distinct(),
        b.has(p.x),
        b.has(p.y),
    ensures
        decode_pair(b, encode_pair(b, p)) == p,
        b.has(encode_pair(b, p).x),
        b.has(encode_pair(b, p).y),
{
    b.lemma_pos_valid(p.x);
    b.lemma_pos_valid(p.y);
    let r1 = b.row_of(p.x);
    let c1 = b.col_of(p.x);
    let r2 = b.row_of(p.y);
    let c2 = b.col_of(p.y);
    if c1 == c2 {
        b.lemma_at_pos(shift_fwd(r1), c1);
        b.lemma_at_pos(shift_fwd(r2), c2);
        assert(decode_pair(b, encode_pair(b, p)) =~= p);
    } else if r1 == r2 {
        b.lemma_at_pos(r1, shift_fwd(c1));
        b.lemma_at_pos(r2, shift_fwd(c2));
        assert(decode_pair(b, encode_pair(b, p)) =~= p);
    } else {
        b.lemma_at_pos(r1, c2);
        b.lemma_at_pos(r2, c1);
        assert(decode_pair(b, encode_pair(b, p)) =~= p);
    }
}

/// Law: the full round trip. An even-length message of cipher letters,
/// digested and encoded, then digested afresh and decoded, comes back
/// unchanged. The two digest steps are written out as the engine performs
/// them: filter, pad, pair.
pub proof fn lemma_round_trip(b: Board, m: Seq<char>)
    requires
        b.distinct(),
        forall|ch: char| #[trigger] is_cipher_letter(ch) ==> b.has(ch),
        forall|r: int, c: int| 0 <= r < 5 && 0 <= c < 5 ==> is_cipher_letter(#[trigger] b.at(r, c)),
        m.len() % 2 == 0,
        forall|i: int| 0 <= i < m.len() ==> is_cipher_letter(#[trigger] m[i]),
    ensures
        ({
            let e = transform_chars(
                b,
                pairs_of(pad_even(filter_letters(m))),
                PlayfairMethod::ENCODE,
            );
            transform_chars(b, pairs_of(pad_even(filter_letters(e))), PlayfairMethod::DECODE) == m
        }),
{
    lemma_filter_letters_identity(m);
    lemma_pairs_of_index(m);
    vstd::arithmetic::div_mod::lemma_fundamental_div_mod(m.len() as int, 2);
    let pairs1 = pairs_of(m);
    let e = transform_chars(b, pairs1, PlayfairMethod::ENCODE);
    assert(e.len() == m.len());
    assert forall|k: int| 0 <= k < pairs1.len() implies b.has(#[trigger] pairs1[k].x) && b.has(
        pairs1[k].y,
    ) by {
        assert(pairs1[k].x == m[2 * k]);
        assert(pairs1[k].y == m[2 * k + 1]);
    }
    assert forall|i: int| 0 <= i < e.len() implies is_cipher_letter(#[trigger] e[i]) by {
        let k = i / 2;
        lemma_pair_round_trip(b, pairs1[k]);
        b.lemma_pos_valid(encode_pair(b, pairs1[k]).x);
        b.lemma_pos_valid(encode_pair(b, pairs1[k]).y);
    }
    lemma_filter_letters_identity(e);
    lemma_pairs_of_index(e);
    let pairs2 = pairs_of(e);
    assert forall|k: int| 0 <= k < pairs2.len() implies #[trigger] pairs2[k] == encode_pair(
        b,
        pairs1[k],
    ) by {
        assert(pairs2[k] == PlayfairPair::make(e[2 * k], e[2 * k + 1]));
        assert(e[2 * k] == transform_pair(b, pairs1[(2 * k) / 2], PlayfairMethod::ENCODE).x);
        assert(e[2 * k + 1] == transform_pair(b, pairs1[(2 * k + 1) / 2], PlayfairMethod::ENCODE).y);
        assert((2 * k) / 2 == k && (2 * k + 1) / 2 == k);
        assert(pairs2[k] =~= encode_pair(b, pairs1[k]));
    }
    let d = transform_chars(b, pairs2, PlayfairMethod::DECODE);
    assert forall|i: int| 0 <= i < m.len() implies #[trigger] d[i] == m[i] by {
        let k = i / 2;
        lemma_pair_round_trip(b, pairs1[k]);
        assert(decode_pair(b, pairs2[k]) == pairs1[k]);
        if i % 2 == 0 {
            assert(i == 2 * k);
            assert(d[i] == decode_pair(b, pairs2[k]).x);
            assert(m[i] == pairs1[k].x);
        } else {
            assert(i == 2 * k + 1);
            assert(d[i] == decode_pair(b, pairs2[k]).y);
            assert(m[i] == pairs1[k].y);
        }
    }
    assert(d =~= m);
}

/// Membership check on the working letter vector.
fn vec_contains(data: &Vec<char>, ch: char) -> (present: bool)
    ensures
        present == data@.contains(ch),
{
    let mut i: usize = 0;
    while i < data.len()
        invariant
            i <= data@.len(),
            forall|k: int| 0 <= k < i ==> data@[k] != ch,
        decreases data@.len() - i,
    {
        if data[i] == ch {
            return true;
        }
        i += 1;
    }
    false
}

} // verus!
