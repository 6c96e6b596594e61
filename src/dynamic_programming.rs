use vstd::prelude::*;
use vstd::utf8::encode_utf8;

verus! {

/// Whether `s` can be had from `t` by deleting elements: either both start
/// alike and the rests match, or the first element of `t` is deleted.
pub open spec fn is_subseq(s: Seq<u8>, t: Seq<u8>) -> bool
    decreases t.len(),
{
    if s.len() == 0 {
        true
    } else if t.len() == 0 {
        false
    } else {
        (s[0] == t[0] && is_subseq(s.drop_first(), t.drop_first())) || is_subseq(
            s,
            t.drop_first(),
        )
    }
}

proof fn lemma_subseq_drop_first(s: Seq<u8>, t: Seq<u8>)
    requires
        s.len() > 0,
        is_subseq(s, t),
    ensures
        is_subseq(s.drop_first(), t),
    decreases t.len(),
{
    if s.drop_first().len() > 0 && t.len() > 0 {
        if s[0] == t[0] && is_subseq(s.drop_first(), t.drop_first()) {
            lemma_subseq_drop_first(s.drop_first(), t.drop_first());
        } else {
            lemma_subseq_drop_first(s, t.drop_first());
        }
    }
}

/// Whether the bytes of `s` are a subsequence of the bytes of `t`.
pub fn is_subsequence(s: String, t: String) -> (r: bool)
    ensures
        r == is_subseq(encode_utf8(s@), encode_utf8(t@)),
{
    let sb = s.as_str().as_bytes();
    let tb = t.as_str().as_bytes();
    let m = sb.len();
    let n = tb.len();
    let mut i: usize = 0;
    let mut j: usize = 0;
    assert(sb@.skip(0) == sb@);
    assert(tb@.skip(0) == tb@);
    while i < m && j < n
        invariant
            m == sb@.len(),
            n == tb@.len(),
            i <= m,
            j <= n,
            is_subseq(sb@, tb@) == is_subseq(sb@.skip(i as int), tb@.skip(j as int)),
        decreases n - j,
    {
        let ghost rs = sb@.skip(i as int);
        let ghost rt = tb@.skip(j as int);
        assert(rt.drop_first() == tb@.skip(j + 1));
        if sb[i] == tb[j] {
            assert(rs.drop_first() == sb@.skip(i + 1));
            proof {
                if is_subseq(rs, rt.drop_first()) {
                    lemma_subseq_drop_first(rs, rt.drop_first());
                }
            }
            i += 1;
        }
        j += 1;
    }
    assert(sb@.skip(i as int).len() == m - i);
    assert(tb@.skip(j as int).len() == n - j);
    i == m
}

/// Whether word `w` of `words` is not empty and ends `s.take(i)`.
pub open spec fn ends_with_word(s: Seq<u8>, words: Seq<Seq<u8>>, w: int, i: int) -> bool {
    &&& 0 <= w < words.len()
    &&& 0 < words[w].len() <= i <= s.len()
    &&& s.subrange(i - words[w].len(), i) == words[w]
}

/// Whether the first `i` bytes of `s` split into a sequence of words of
/// `words`, each used as often as needed.
pub open spec fn breaks_at(s: Seq<u8>, words: Seq<Seq<u8>>, i: int) -> bool
    decreases i,
{
    if i <= 0 {
        i == 0
    } else {
        exists|w: int|
            #![trigger ends_with_word(s, words, w, i)]
            ends_with_word(s, words, w, i) && breaks_at(s, words, i - words[w].len())
    }
}

/// The bytes of each word.
pub open spec fn words_bytes(words: Seq<&str>) -> Seq<Seq<u8>> {
    words.map_values(|w: &str| encode_utf8(w@))
}

/// Whether `s` splits into words of `word_dict`, each usable any number of
/// times. The empty string splits into no words.
pub fn word_break(s: &str, word_dict: Vec<&str>) -> (r: bool)
    ensures
        r == breaks_at(encode_utf8(s@), words_bytes(word_dict@), encode_utf8(s@).len() as int),
{
    let sb = s.as_bytes();
    let n = sb.len();
    let ghost words = words_bytes(word_dict@);
    let mut memo: Vec<bool> = Vec::new();
    memo.push(true);
    let mut done: usize = 0;
    while done < n
        invariant
            n == sb@.len(),
            sb@ == encode_utf8(s@),
            words == words_bytes(word_dict@),
            done <= n,
            memo@.len() == done + 1,
            forall|k: int| 0 <= k <= done ==> memo@[k] == breaks_at(sb@, words, k),
        decreases n - done,
    {
        let i = done + 1;
        let mut found = false;
        let mut w: usize = 0;
        while w < word_dict.len()
            invariant
                n == sb@.len(),
                words == words_bytes(word_dict@),
                1 <= i <= n,
                memo@.len() == i,
                forall|k: int| 0 <= k < i ==> memo@[k] == breaks_at(sb@, words, k),
                w <= word_dict@.len(),
                found == exists|v: int|
                    #![trigger ends_with_word(sb@, words, v, i as int)]
                    0 <= v < w && ends_with_word(sb@, words, v, i as int) && breaks_at(
                        sb@,
                        words,
                        i - words[v].len(),
                    ),
            decreases word_dict@.len() - w,
        {
            let wb = word_dict[w].as_bytes();
            let len = wb.len();
            let mut fits = 0 < len && len <= i && memo[i - len];
            if fits {
                let start = i - len;
                let mut k: usize = 0;
                while k < len
                    invariant
                        0 < len <= i <= n,
                        n == sb@.len(),
                        start == i - len,
                        len == wb@.len(),
                        k <= len,
                        fits == forall|q: int| 0 <= q < k ==> sb@[start + q] == wb@[q],
                    decreases len - k,
                {
                    if sb[start + k] != wb[k] {
                        fits = false;
                    }
                    k += 1;
                }
                assert(fits == (sb@.subrange(start as int, i as int) == wb@)) by {
                    if fits {
                        assert(sb@.subrange(start as int, i as int) =~= wb@);
                    }
                }
            }
            assert(wb@ == words[w as int]);
            assert(fits == (ends_with_word(sb@, words, w as int, i as int) && breaks_at(
                sb@,
                words,
                i - words[w as int].len(),
            )));
            found = found || fits;
            w += 1;
        }
        assert(found == breaks_at(sb@, words, i as int));
        memo.push(found);
        done = i;
    }
    memo[n]
}

} // verus!
