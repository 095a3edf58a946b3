use vstd::prelude::*;
use vstd::string::StrSliceExecFns;
use vstd::string::StringExecFns;

verus! {

// ---------------------------------------------------------------------------
// Character classes
// ---------------------------------------------------------------------------

/// The fixed punctuation set of the tokenizer: each of these characters forms
/// a token of its own; any other non-whitespace character belongs to a word.
pub open spec fn is_set_punct(c: char) -> bool {
    c == '~' || c == '!' || c == '?' || c == ',' || c == '&' || c == '(' || c == ')' || c == '{'
        || c == '}' || c == '[' || c == ']'
}

/// The Unicode `White_Space` characters: the separators of the tokenizer.
pub open spec fn is_space(c: char) -> bool {
    let u = c as u32;
    (0x9 <= u && u <= 0xD) || u == 0x20 || u == 0x85 || u == 0xA0 || u == 0x1680 || (0x2000 <= u
        && u <= 0x200A) || u == 0x2028 || u == 0x2029 || u == 0x202F || u == 0x205F || u == 0x3000
}

/// A character that extends a word token.
pub open spec fn is_word_char(c: char) -> bool {
    !is_space(c) && !is_set_punct(c)
}

/// ASCII punctuation.
pub open spec fn is_ascii_punct(c: char) -> bool {
    let u = c as u32;
    (0x21 <= u && u <= 0x2F) || (0x3A <= u && u <= 0x40) || (0x5B <= u && u <= 0x60) || (0x7B <= u
        && u <= 0x7E)
}

fn char_is_space(c: char) -> (r: bool)
    ensures
        r == is_space(c),
{
    let u: u32 = c as u32;
    (0x9 <= u && u <= 0xD) || u == 0x20 || u == 0x85 || u == 0xA0 || u == 0x1680 || (0x2000 <= u
        && u <= 0x200A) || u == 0x2028 || u == 0x2029 || u == 0x202F || u == 0x205F || u == 0x3000
}

fn char_is_set_punct(c: char) -> (r: bool)
    ensures
        r == is_set_punct(c),
{
    c == '~' || c == '!' || c == '?' || c == ',' || c == '&' || c == '(' || c == ')' || c == '{'
        || c == '}' || c == '[' || c == ']'
}

fn char_is_word(c: char) -> (r: bool)
    ensures
        r == is_word_char(c),
{
    !char_is_space(c) && !char_is_set_punct(c)
}

fn char_is_ascii_punct(c: char) -> (r: bool)
    ensures
        r == is_ascii_punct(c),
{
    let u: u32 = c as u32;
    (0x21 <= u && u <= 0x2F) || (0x3A <= u && u <= 0x40) || (0x5B <= u && u <= 0x60) || (0x7B <= u
        && u <= 0x7E)
}

// ---------------------------------------------------------------------------
// Tokenization
// ---------------------------------------------------------------------------

/// Length of the maximal prefix of word characters.
pub open spec fn run_len(s: Seq<char>) -> int
    decreases s.len(),
{
    if s.len() == 0 || !is_word_char(s[0]) {
        0
    } else {
        1 + run_len(s.drop_first())
    }
}

pub proof fn lemma_run_len_bounds(s: Seq<char>)
    ensures
        0 <= run_len(s) <= s.len(),
        s.len() > 0 && is_word_char(s[0]) ==> run_len(s) >= 1,
    decreases s.len(),
{
    if s.len() > 0 && is_word_char(s[0]) {
        lemma_run_len_bounds(s.drop_first());
    }
}

/// A token is a maximal run of word characters, or a single character of the
/// punctuation set; whitespace separates tokens and is never emitted.
pub open spec fn tokenize(s: Seq<char>) -> Seq<Seq<char>>
    decreases s.len(),
{
    if s.len() == 0 {
        Seq::empty()
    } else if is_space(s[0]) {
        tokenize(s.drop_first())
    } else if is_set_punct(s[0]) {
        seq![seq![s[0]]] + tokenize(s.drop_first())
    } else {
        proof {
            lemma_run_len_bounds(s);
        }
        seq![s.take(run_len(s))] + tokenize(s.skip(run_len(s)))
    }
}

// ---------------------------------------------------------------------------
// The per-token rewrite table
// ---------------------------------------------------------------------------

/// What one token contributes to the key: `None` drops the token, `Some`
/// contributes one space-joined chunk.  A single `&` becomes `and`; any other
/// single ASCII punctuation character is dropped; the noise words `islas`,
/// `minor` and `the` are dropped; `st.`, `u.s.` and `u.s.a.` are expanded;
/// everything else passes through verbatim.
pub open spec fn token_chunk(tok: Seq<char>) -> Option<Seq<char>> {
    if tok.len() == 1 {
        if tok[0] == '&' {
            Some("and"@)
        } else if is_ascii_punct(tok[0]) {
            None
        } else {
            Some(tok)
        }
    } else {
        if tok == "islas"@ || tok == "minor"@ || tok == "the"@ {
            None
        } else if tok == "st."@ {
            Some("saint"@)
        } else if tok == "u.s."@ {
            Some("united states"@)
        } else if tok == "u.s.a."@ {
            Some("united states of america"@)
        } else {
            Some(tok)
        }
    }
}

/// The chunks contributed by a token sequence, in order.
pub open spec fn chunks_of(toks: Seq<Seq<char>>) -> Seq<Seq<char>>
    decreases toks.len(),
{
    if toks.len() == 0 {
        Seq::empty()
    } else {
        match token_chunk(toks[0]) {
            Some(c) => seq![c] + chunks_of(toks.drop_first()),
            None => chunks_of(toks.drop_first()),
        }
    }
}

/// Chunks joined by a single space, with no leading or trailing space.
pub open spec fn join_chunks(chunks: Seq<Seq<char>>) -> Seq<char>
    decreases chunks.len(),
{
    if chunks.len() == 0 {
        Seq::empty()
    } else if chunks.len() == 1 {
        chunks[0]
    } else {
        join_chunks(chunks.drop_last()) + seq![' '] + chunks.last()
    }
}

/// The lowercase form that `normalize_name` folds its input with; a fixed
/// function of the input characters alone.
pub uninterp spec fn lower_of(s: Seq<char>) -> Seq<char>;

/// The canonical key of an input string: lowercase it, tokenize, apply the
/// rewrite table to every token, and join the surviving chunks with single
/// spaces.
pub open spec fn normalize_spec(s: Seq<char>) -> Seq<char> {
    join_chunks(chunks_of(tokenize(lower_of(s))))
}

// ---------------------------------------------------------------------------
// Trusted items
// ---------------------------------------------------------------------------

/// Relies on str::to_lowercase: the lowercase mapping is locale-independent
/// and depends on the input characters alone, and an empty string stays
/// empty.
#[verifier::external_body]
fn lowercase(s: &str) -> (r: String)
    ensures
        r@ == lower_of(s@),
        s@.len() == 0 ==> r@.len() == 0,
{
    s.to_lowercase()
}

/// Relies on String::push: appends the given character to the end of the
/// string.
#[verifier::external_body]
pub(crate) fn push_char(s: &mut String, c: char)
    ensures
        final(s)@ == old(s)@.push(c),
{
    s.push(c)
}

// ---------------------------------------------------------------------------
// Executable normalizer
// ---------------------------------------------------------------------------

/// The characters of a string slice, as a vector.
fn chars_vec(s: &str) -> (r: Vec<char>)
    ensures
        r@ == s@,
{
    let n = s.unicode_len();
    let mut v: Vec<char> = Vec::new();
    let mut i: usize = 0;
    while i < n
        invariant
            i <= n,
            n == s@.len(),
            v@ == s@.take(i as int),
        decreases n - i,
    {
        let c = s.get_char(i);
        v.push(c);
        i = i + 1;
        proof {
            assert(v@ =~= s@.take(i as int));
        }
    }
    proof {
        assert(v@ =~= s@);
    }
    v
}

/// What a new chunk is preceded by: nothing while the key is still empty, one
/// space afterwards.
pub open spec fn sep_of(s: Seq<char>) -> Seq<char> {
    if s.len() == 0 {
        Seq::empty()
    } else {
        seq![' ']
    }
}

fn push_sep(res: &mut String)
    ensures
        final(res)@ == old(res)@ + sep_of(old(res)@),
{
    if !res.as_str().is_empty() {
        push_char(res, ' ');
        proof {
            assert(old(res)@.push(' ') =~= old(res)@ + sep_of(old(res)@));
        }
    } else {
        proof {
            assert(res@ =~= res@ + sep_of(res@));
        }
    }
}

proof fn lemma_join_push(done: Seq<Seq<char>>, c: Seq<char>)
    requires
        done.len() > 0 ==> join_chunks(done).len() > 0,
    ensures
        join_chunks(done.push(c)) == join_chunks(done) + sep_of(join_chunks(done)) + c,
{
    let l = done.push(c);
    if done.len() == 0 {
        assert(l.len() == 1);
        assert(l[0] =~= c);
        assert(join_chunks(l) == l[0]);
        assert(join_chunks(done) + sep_of(join_chunks(done)) + c =~= c);
    } else {
        assert(l.drop_last() =~= done);
        assert(l.last() == c);
        assert(join_chunks(l) == join_chunks(done) + seq![' '] + c);
    }
}

proof fn lemma_chunks_cons(t: Seq<char>, rest: Seq<Seq<char>>)
    ensures
        chunks_of(seq![t] + rest) == match token_chunk(t) {
            Some(c) => seq![c] + chunks_of(rest),
            None => chunks_of(rest),
        },
{
    let l = seq![t] + rest;
    assert(l.len() > 0);
    assert(l[0] == t);
    assert(l.drop_first() =~= rest);
}

proof fn lemma_tokenize_step(s: Seq<char>)
    requires
        s.len() > 0,
    ensures
        is_space(s[0]) ==> tokenize(s) == tokenize(s.drop_first()),
        is_set_punct(s[0]) ==> tokenize(s) == seq![seq![s[0]]] + tokenize(s.drop_first()),
        is_word_char(s[0]) ==> tokenize(s) == seq![s.take(run_len(s))] + tokenize(
            s.skip(run_len(s)),
        ),
{
    lemma_run_len_bounds(s);
}

proof fn lemma_run_len_at(s: Seq<char>, n: int)
    requires
        0 <= n <= s.len(),
        forall|k: int| 0 <= k < n ==> is_word_char(#[trigger] s[k]),
        n == s.len() || !is_word_char(s[n]),
    ensures
        run_len(s) == n,
    decreases n,
{
    if n == 0 {
    } else {
        assert(is_word_char(s[0]));
        lemma_run_len_at(s.drop_first(), n - 1);
    }
}

/// Emit a single-character token into the key being built.
fn emit_single(res: &mut String, c: char)
    ensures
        token_chunk(seq![c]) is Some ==> final(res)@ == old(res)@ + sep_of(old(res)@)
            + token_chunk(seq![c])->0,
        token_chunk(seq![c]) is Some ==> token_chunk(seq![c])->0.len() > 0,
        token_chunk(seq![c]) is None ==> final(res)@ == old(res)@,
{
    proof {
        assert(seq![c].len() == 1);
        assert(seq![c][0] == c);
    }
    if c == '&' {
        push_sep(res);
        res.append("and");
        proof {
            reveal_strlit("and");
            assert(token_chunk(seq![c]) == Some("and"@));
        }
    } else if char_is_ascii_punct(c) {
        proof {
            assert(token_chunk(seq![c]) is None);
        }
    } else {
        let ghost mid = old(res)@;
        push_sep(res);
        push_char(res, c);
        proof {
            assert(token_chunk(seq![c]) == Some(seq![c]));
            assert((mid + sep_of(mid)).push(c) =~= mid + sep_of(mid) + seq![c]);
        }
    }
}

/// Whether the characters of `cs` in `[start, end)` spell exactly `pat`.
fn run_eq(cs: &Vec<char>, start: usize, end: usize, pat: &str) -> (r: bool)
    requires
        start <= end && end <= cs@.len(),
    ensures
        r == (cs@.subrange(start as int, end as int) == pat@),
{
    let ghost tok = cs@.subrange(start as int, end as int);
    let n = pat.unicode_len();
    if n != end - start {
        proof {
            assert(tok.len() == end - start);
        }
        return false;
    }
    let mut k: usize = 0;
    while k < n
        invariant
            k <= n,
            n == pat@.len(),
            n == end - start,
            start <= end <= cs@.len(),
            tok == cs@.subrange(start as int, end as int),
            forall|t: int| 0 <= t < k ==> cs@[start + t] == pat@[t],
        decreases n - k,
    {
        let pc = pat.get_char(k);
        if cs[start + k] != pc {
            proof {
                assert(tok[k as int] == cs@[start + k]);
            }
            return false;
        }
        k = k + 1;
    }
    proof {
        assert(tok =~= pat@);
    }
    true
}

/// Reduce any input string to its canonical lookup key: lowercase, tokenize,
/// rewrite each token, and join the surviving words with single spaces.
/// Total and deterministic: the result is a fixed function of the input
/// characters, and empty or all-dropped input yields the empty key.
pub fn normalize_name(name: &str) -> (r: String)
    ensures
        r@ == normalize_spec(name@),
{
    let low = lowercase(name);
    let cs = chars_vec(low.as_str());
    let mut res = String::new();
    let ghost mut done: Seq<Seq<char>> = Seq::empty();
    let mut i: usize = 0;
    proof {
        assert(cs@.skip(0) =~= cs@);
        assert(done + chunks_of(tokenize(cs@.skip(0))) =~= chunks_of(tokenize(cs@)));
    }
    while i < cs.len()
        invariant
            i <= cs@.len(),
            cs@ == lower_of(name@),
            res@ == join_chunks(done),
            res@.len() == 0 <==> done.len() == 0,
            chunks_of(tokenize(cs@)) == done + chunks_of(tokenize(cs@.skip(i as int))),
        decreases cs@.len() - i,
    {
        let c = cs[i];
        let ghost rest = cs@.skip(i as int);
        proof {
            assert(rest.len() == cs@.len() - i);
            assert(rest[0] == cs@[i as int]);
            assert(rest.drop_first() =~= cs@.skip(i as int + 1));
            lemma_tokenize_step(rest);
        }
        if char_is_space(c) {
            i = i + 1;
        } else if char_is_set_punct(c) {
            let ghost tok = seq![c];
            let ghost done0 = done;
            proof {
                lemma_chunks_cons(tok, tokenize(cs@.skip(i as int + 1)));
                if token_chunk(tok) is Some {
                    lemma_join_push(done, token_chunk(tok)->0);
                }
            }
            emit_single(&mut res, c);
            proof {
                if token_chunk(tok) is Some {
                    let ch = token_chunk(tok)->0;
                    done = done0.push(ch);
                    assert(done0 + (seq![ch] + chunks_of(tokenize(cs@.skip(i as int + 1)))) =~= done
                        + chunks_of(tokenize(cs@.skip(i as int + 1))));
                }
            }
            i = i + 1;
        } else {
            let start = i;
            let mut j: usize = i;
            while j < cs.len() && char_is_word(cs[j])
                invariant
                    start <= j <= cs@.len(),
                    start < cs@.len(),
                    forall|k: int| start <= k < j ==> is_word_char(#[trigger] cs@[k]),
                    is_word_char(cs@[start as int]),
                decreases cs@.len() - j,
            {
                j = j + 1;
            }
            proof {
                assert(j > start) by {
                    if j == start {
                        assert(j < cs@.len() && is_word_char(cs@[j as int]));
                    }
                }
            }
            let ghost tok = cs@.subrange(start as int, j as int);
            let ghost done0 = done;
            proof {
                assert forall|k: int| 0 <= k < j - start implies is_word_char(
                    #[trigger] rest[k],
                ) by {
                    assert(rest[k] == cs@[start + k]);
                }
                if j - start < rest.len() {
                    assert(rest[j - start] == cs@[j as int]);
                }
                lemma_run_len_at(rest, j - start);
                assert(rest.take(j - start) =~= tok);
                assert(rest.skip(j - start) =~= cs@.skip(j as int));
                assert(tokenize(rest) == seq![tok] + tokenize(cs@.skip(j as int)));
                lemma_chunks_cons(tok, tokenize(cs@.skip(j as int)));
                assert(tok.len() == j - start);
            }
            if j - start == 1 {
                proof {
                    assert(tok =~= seq![c]);
                    if token_chunk(tok) is Some {
                        lemma_join_push(done, token_chunk(tok)->0);
                    }
                }
                emit_single(&mut res, c);
                proof {
                    if token_chunk(tok) is Some {
                        let ch = token_chunk(tok)->0;
                        done = done0.push(ch);
                        assert(done0 + (seq![ch] + chunks_of(tokenize(cs@.skip(j as int)))) =~= done
                            + chunks_of(tokenize(cs@.skip(j as int))));
                    }
                }
            } else if run_eq(&cs, start, j, "islas") || run_eq(&cs, start, j, "minor") || run_eq(
                &cs,
                start,
                j,
                "the",
            ) {
                proof {
                    assert(token_chunk(tok) is None);
                }
            } else {
                let ghost mid = res@;
                proof {
                    if token_chunk(tok) is Some {
                        lemma_join_push(done, token_chunk(tok)->0);
                    }
                }
                if run_eq(&cs, start, j, "st.") {
                    push_sep(&mut res);
                    res.append("saint");
                    proof {
                        assert(token_chunk(tok) == Some("saint"@));
                    }
                } else if run_eq(&cs, start, j, "u.s.") {
                    push_sep(&mut res);
                    res.append("united states");
                    proof {
                        assert(token_chunk(tok) == Some("united states"@));
                    }
                } else if run_eq(&cs, start, j, "u.s.a.") {
                    push_sep(&mut res);
                    res.append("united states of america");
                    proof {
                        assert(token_chunk(tok) == Some("united states of america"@));
                    }
                } else {
                    push_sep(&mut res);
                    let mut k: usize = start;
                    while k < j
                        invariant
                            start <= k <= j,
                            j <= cs@.len(),
                            tok == cs@.subrange(start as int, j as int),
                            res@ == mid + sep_of(mid) + cs@.subrange(start as int, k as int),
                        decreases j - k,
                    {
                        let ch = cs[k];
                        push_char(&mut res, ch);
                        k = k + 1;
                        proof {
                            assert((mid + sep_of(mid) + cs@.subrange(start as int, k - 1)).push(
                                cs@[k - 1],
                            ) =~= mid + sep_of(mid) + cs@.subrange(start as int, k as int));
                        }
                    }
                    proof {
                        assert(token_chunk(tok) == Some(tok));
                    }
                }
                proof {
                    let ch = token_chunk(tok)->0;
                    assert(ch.len() > 0) by {
                        reveal_strlit("saint");
                        reveal_strlit("united states");
                        reveal_strlit("united states of america");
                    }
                    assert(res@ == mid + sep_of(mid) + ch);
                    done = done0.push(ch);
                    assert(done0 + (seq![ch] + chunks_of(tokenize(cs@.skip(j as int)))) =~= done
                        + chunks_of(tokenize(cs@.skip(j as int))));
                }
            }
            i = j;
        }
    }
    proof {
        assert(cs@.skip(i as int) =~= Seq::<char>::empty());
        assert(chunks_of(tokenize(cs@.skip(i as int))) =~= Seq::<Seq<char>>::empty());
        assert(done + chunks_of(tokenize(cs@.skip(i as int))) =~= done);
        assert(res@ == normalize_spec(name@));
    }
    res
}

} // verus!
