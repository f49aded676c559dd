use vstd::prelude::*;

verus! {

/// True of the ASCII punctuation characters, as std documents them.
pub open spec fn spec_is_punct(c: char) -> bool {
    (33 <= c as u32 && c as u32 <= 47) || (58 <= c as u32 && c as u32 <= 64) || (91 <= c as u32
        && c as u32 <= 96) || (123 <= c as u32 && c as u32 <= 126)
}

/// Decides whether a character is ASCII punctuation.
pub fn is_punct(c: char) -> (r: bool)
    ensures
        r == spec_is_punct(c),
{
    let u = c as u32;
    (33 <= u && u <= 47) || (58 <= u && u <= 64) || (91 <= u && u <= 96) || (123 <= u && u <= 126)
}

/// True of the ASCII whitespace characters (space, tab, newline, carriage
/// return, form feed).
pub open spec fn spec_is_ws(c: char) -> bool {
    c as u32 == 32 || c as u32 == 9 || c as u32 == 10 || c as u32 == 13 || c as u32 == 12
}

/// Decides whether a character is ASCII whitespace.
pub fn is_ws(c: char) -> (r: bool)
    ensures
        r == spec_is_ws(c),
{
    let u = c as u32;
    u == 32 || u == 9 || u == 10 || u == 13 || u == 12
}

/// The ASCII-lowercased form of a character: letters `A` to `Z` fold to
/// `a` to `z`, every other character is kept as it is.
pub open spec fn spec_lower_char(c: char) -> char {
    if 65 <= c as u32 && c as u32 <= 90 {
        (((c as u32) + 32) as u8) as char
    } else {
        c
    }
}

/// ASCII-lowercases one character.
pub fn lower_char(c: char) -> (r: char)
    ensures
        r == spec_lower_char(c),
{
    let u = c as u32;
    if 65 <= u && u <= 90 {
        ((u + 32) as u8) as char
    } else {
        c
    }
}

/// A word sequence with every character ASCII-lowercased.
pub open spec fn spec_lower_seq(s: Seq<char>) -> Seq<char> {
    s.map_values(|c: char| spec_lower_char(c))
}

/// Characters of a sequence with the leading run of ASCII punctuation removed.
pub open spec fn spec_strip_leading(s: Seq<char>) -> Seq<char>
    decreases s.len(),
{
    if s.len() > 0 && spec_is_punct(s[0]) {
        spec_strip_leading(s.drop_first())
    } else {
        s
    }
}

/// Characters of a sequence with the trailing run of ASCII punctuation removed.
pub open spec fn spec_strip_trailing(s: Seq<char>) -> Seq<char>
    decreases s.len(),
{
    if s.len() > 0 && spec_is_punct(s[s.len() - 1]) {
        spec_strip_trailing(s.drop_last())
    } else {
        s
    }
}

/// The normalized form of a raw word: lowercase it, then strip surrounding
/// ASCII punctuation from both ends. Interior punctuation is kept.
pub open spec fn spec_normalize_word(s: Seq<char>) -> Seq<char> {
    spec_strip_trailing(spec_strip_leading(spec_lower_seq(s)))
}

/// Copies the characters of a string into a vector.
pub fn chars_of(s: &str) -> (r: Vec<char>)
    ensures
        r@ == s@,
{
    let n = s.unicode_len();
    let mut v: Vec<char> = Vec::new();
    let mut i: usize = 0;
    while i < n
        invariant
            n == s@.len(),
            i <= n,
            v@ =~= s@.subrange(0, i as int),
        decreases n - i,
    {
        v.push(s.get_char(i));
        i = i + 1;
    }
    proof {
        assert(v@ =~= s@);
    }
    v
}

/// Relies on `Iterator::collect` for `String`: it builds the string holding
/// exactly the characters of the iterator, in order.
#[verifier::external_body]
pub fn string_of(chars: &Vec<char>) -> (r: String)
    ensures
        r@ == chars@,
{
    chars.iter().collect()
}

/// ASCII-lowercases every character of a word.
pub fn lower_word(w: &Vec<char>) -> (r: Vec<char>)
    ensures
        r@ == spec_lower_seq(w@),
{
    let mut out: Vec<char> = Vec::new();
    let mut i: usize = 0;
    while i < w.len()
        invariant
            i <= w@.len(),
            out@ =~= w@.subrange(0, i as int).map_values(|c: char| spec_lower_char(c)),
        decreases w@.len() - i,
    {
        out.push(lower_char(w[i]));
        i = i + 1;
        proof {
            assert(out@ =~= w@.subrange(0, i as int).map_values(
                |c: char| spec_lower_char(c),
            ));
        }
    }
    proof {
        assert(w@.subrange(0, w@.len() as int) =~= w@);
        assert(out@ =~= spec_lower_seq(w@));
    }
    out
}

/// Normalizes a raw word: ASCII-lowercase, then strip leading and trailing
/// ASCII punctuation.
pub fn normalize_word(w: &Vec<char>) -> (r: Vec<char>)
    ensures
        r@ == spec_normalize_word(w@),
{
    let low = lower_word(w);
    let n = low.len();
    proof {
        assert(low@.subrange(0, n as int) =~= low@);
    }
    let mut k: usize = 0;
    while k < n && is_punct(low[k])
        invariant
            n == low@.len(),
            k <= n,
            spec_strip_leading(low@) == spec_strip_leading(low@.subrange(k as int, n as int)),
        decreases n - k,
    {
        proof {
            let sub = low@.subrange(k as int, n as int);
            assert(sub[0] == low@[k as int]);
            assert(sub.drop_first() =~= low@.subrange(k as int + 1, n as int));
        }
        k = k + 1;
    }
    proof {
        let sub = low@.subrange(k as int, n as int);
        if k < n {
            assert(!spec_is_punct(sub[0]));
        }
        assert(spec_strip_leading(low@) == sub);
    }
    let mut m: usize = n;
    while m > k && is_punct(low[m - 1])
        invariant
            n == low@.len(),
            k <= m <= n,
            spec_strip_leading(low@) == low@.subrange(k as int, n as int),
            spec_strip_trailing(low@.subrange(k as int, n as int)) == spec_strip_trailing(
                low@.subrange(k as int, m as int),
            ),
        decreases m,
    {
        proof {
            let sub = low@.subrange(k as int, m as int);
            assert(sub[sub.len() - 1] == low@[m - 1]);
            assert(sub.drop_last() =~= low@.subrange(k as int, m as int - 1));
        }
        m = m - 1;
    }
    proof {
        let sub = low@.subrange(k as int, m as int);
        if m > k {
            assert(sub[sub.len() - 1] == low@[m - 1]);
            assert(!spec_is_punct(sub[sub.len() - 1]));
        }
        assert(spec_strip_trailing(low@.subrange(k as int, n as int)) == sub);
    }
    let mut out: Vec<char> = Vec::new();
    let mut i: usize = k;
    while i < m
        invariant
            k <= i <= m <= low@.len(),
            out@ =~= low@.subrange(k as int, i as int),
        decreases m - i,
    {
        out.push(low[i]);
        i = i + 1;
    }
    proof {
        assert(out@ =~= low@.subrange(k as int, m as int));
    }
    out
}

/// Strips the surrounding ASCII punctuation from a word, keeping interior
/// punctuation such as apostrophes and hyphens.
pub fn remove_surrounding_punctuation(input: &str) -> (r: String)
    ensures
        r@ == spec_strip_trailing(spec_strip_leading(input@)),
{
    let cs = chars_of(input);
    let n = cs.len();
    proof {
        assert(cs@.subrange(0, n as int) =~= cs@);
    }
    let mut k: usize = 0;
    while k < n && is_punct(cs[k])
        invariant
            n == cs@.len(),
            cs@ == input@,
            k <= n,
            spec_strip_leading(cs@) == spec_strip_leading(cs@.subrange(k as int, n as int)),
        decreases n - k,
    {
        proof {
            let sub = cs@.subrange(k as int, n as int);
            assert(sub[0] == cs@[k as int]);
            assert(sub.drop_first() =~= cs@.subrange(k as int + 1, n as int));
        }
        k = k + 1;
    }
    proof {
        let sub = cs@.subrange(k as int, n as int);
        if k < n {
            assert(!spec_is_punct(sub[0]));
        }
        assert(spec_strip_leading(cs@) == sub);
    }
    let mut m: usize = n;
    while m > k && is_punct(cs[m - 1])
        invariant
            n == cs@.len(),
            cs@ == input@,
            k <= m <= n,
            spec_strip_leading(cs@) == cs@.subrange(k as int, n as int),
            spec_strip_trailing(cs@.subrange(k as int, n as int)) == spec_strip_trailing(
                cs@.subrange(k as int, m as int),
            ),
        decreases m,
    {
        proof {
            let sub = cs@.subrange(k as int, m as int);
            assert(sub[sub.len() - 1] == cs@[m - 1]);
            assert(sub.drop_last() =~= cs@.subrange(k as int, m as int - 1));
        }
        m = m - 1;
    }
    proof {
        let sub = cs@.subrange(k as int, m as int);
        if m > k {
            assert(sub[sub.len() - 1] == cs@[m - 1]);
            assert(!spec_is_punct(sub[sub.len() - 1]));
        }
        assert(spec_strip_trailing(cs@.subrange(k as int, n as int)) == sub);
    }
    let mut out: Vec<char> = Vec::new();
    let mut i: usize = k;
    while i < m
        invariant
            k <= i <= m <= cs@.len(),
            out@ =~= cs@.subrange(k as int, i as int),
        decreases m - i,
    {
        out.push(cs[i]);
        i = i + 1;
    }
    proof {
        assert(out@ =~= cs@.subrange(k as int, m as int));
    }
    string_of(&out)
}

/// One token of a source document: the normalized word and the character
/// offset of the first character of the raw word within the source text.
pub struct AnnotatedWord {
    pub word: String,
    pub offset: usize,
}

/// The mathematical shape of an `AnnotatedWord`.
pub struct AnnotatedWordV {
    pub word: Seq<char>,
    pub offset: usize,
}

impl View for AnnotatedWord {
    type V = AnnotatedWordV;

    open spec fn view(&self) -> AnnotatedWordV {
        AnnotatedWordV { word: self.word@, offset: self.offset }
    }
}

/// The views of a sequence of annotated words.
pub open spec fn words_view(s: Seq<AnnotatedWord>) -> Seq<AnnotatedWordV> {
    s.map_values(|w: AnnotatedWord| w@)
}

/// The running state of the tokenizer fold: the words already emitted and the
/// raw word currently being gathered, with its start offset.
pub struct TokState {
    pub out: Seq<AnnotatedWordV>,
    pub cur: Option<(usize, Seq<char>)>,
}

/// Emits the gathered raw word, if its normalized form is non-empty.
pub open spec fn spec_tok_flush(st: TokState) -> Seq<AnnotatedWordV> {
    match st.cur {
        Option::None => st.out,
        Option::Some((o, w)) => {
            let n = spec_normalize_word(w);
            if n.len() == 0 {
                st.out
            } else {
                st.out.push(AnnotatedWordV { word: n, offset: o })
            }
        },
    }
}

/// One step of the tokenizer fold, reading the character at offset `idx`.
pub open spec fn spec_tok_step(st: TokState, c: char, idx: usize) -> TokState {
    if spec_is_ws(c) {
        TokState { out: spec_tok_flush(st), cur: Option::None }
    } else {
        match st.cur {
            Option::None => TokState { out: st.out, cur: Option::Some((idx, seq![c])) },
            Option::Some((o, w)) => TokState { out: st.out, cur: Option::Some((o, w.push(c))) },
        }
    }
}

/// The tokenizer state after reading the first `i` characters of `s`.
pub open spec fn spec_tok_state(s: Seq<char>, i: int) -> TokState
    decreases i,
{
    if i <= 0 {
        TokState { out: Seq::empty(), cur: Option::None }
    } else {
        spec_tok_step(spec_tok_state(s, i - 1), s[i - 1], (i - 1) as usize)
    }
}

/// The tokens of a text: maximal whitespace-free runs, each normalized, each
/// with the offset of its first raw character; runs that normalize to the
/// empty word are dropped.
pub open spec fn spec_tokenize(s: Seq<char>) -> Seq<AnnotatedWordV> {
    spec_tok_flush(spec_tok_state(s, s.len() as int))
}

/// Splits a text into annotated words: lowercased, stripped of surrounding
/// ASCII punctuation, paired with the character offset of the raw word.
pub fn tokenize(chars: &Vec<char>) -> (r: Vec<AnnotatedWord>)
    ensures
        words_view(r@) == spec_tokenize(chars@),
{
    let n = chars.len();
    let mut out: Vec<AnnotatedWord> = Vec::new();
    let mut cur: Option<(usize, Vec<char>)> = Option::None;
    let mut i: usize = 0;
    while i < n
        invariant
            n == chars@.len(),
            i <= n,
            words_view(out@) == spec_tok_state(chars@, i as int).out,
            match cur {
                Option::None => spec_tok_state(chars@, i as int).cur is None,
                Option::Some((o, w)) => spec_tok_state(chars@, i as int).cur == Option::Some(
                    (o, w@),
                ),
            },
        decreases n - i,
    {
        let c = chars[i];
        if is_ws(c) {
            match cur {
                Option::None => {},
                Option::Some((o, w)) => {
                    let norm = normalize_word(&w);
                    if norm.len() > 0 {
                        let word = string_of(&norm);
                        out.push(AnnotatedWord { word, offset: o });
                        proof {
                            assert(words_view(out@) =~= spec_tok_flush(
                                spec_tok_state(chars@, i as int),
                            ));
                        }
                    }
                },
            }
            cur = Option::None;
        } else {
            match cur {
                Option::None => {
                    let mut w: Vec<char> = Vec::new();
                    w.push(c);
                    proof {
                        assert(w@ =~= seq![c]);
                    }
                    cur = Option::Some((i, w));
                },
                Option::Some((o, mut w)) => {
                    w.push(c);
                    cur = Option::Some((o, w));
                },
            }
        }
        i = i + 1;
    }
    match cur {
        Option::None => {},
        Option::Some((o, w)) => {
            let norm = normalize_word(&w);
            if norm.len() > 0 {
                let word = string_of(&norm);
                out.push(AnnotatedWord { word, offset: o });
                proof {
                    assert(words_view(out@) =~= spec_tok_flush(
                        spec_tok_state(chars@, n as int),
                    ));
                }
            }
        },
    }
    out
}

} // verus!
