//! Text helpers of the UI: line wrapping for the reading panels (by an
//! estimated number of characters per line), the library search summary,
//! the pen mode label and the page badge label, and the mode badge's
//! rectangle.

use vstd::prelude::*;

use crate::discover::join_with;
use crate::strings::{
    char_is_whitespace, chars_of, decimal, is_ws, push_char, push_chars, push_decimal,
    push_str_chars, texts, trim_chars, trim_spec, lemma_texts_push,
};

verus! {

/// The character sequences of character vectors.
pub open spec fn vv(v: Seq<Vec<char>>) -> Seq<Seq<char>> {
    v.map_values(|x: Vec<char>| x@)
}

/// Pieces of `s` between occurrences of `sep` (`str::split`): `n`
/// separators give `n + 1` pieces, empty ones included.
pub open spec fn split_on(s: Seq<char>, sep: char) -> Seq<Seq<char>>
    decreases s.len(),
{
    if s.len() == 0 {
        seq![Seq::empty()]
    } else {
        let p = split_on(s.drop_last(), sep);
        if s.last() == sep {
            p.push(Seq::empty())
        } else {
            p.update(p.len() - 1, p.last().push(s.last()))
        }
    }
}

proof fn lemma_split_nonempty(s: Seq<char>, sep: char)
    ensures
        split_on(s, sep).len() >= 1,
    decreases s.len(),
{
    if s.len() > 0 {
        lemma_split_nonempty(s.drop_last(), sep);
    }
}

/// `s[a..b]` as a vector.
fn sub_chars(s: &[char], a: usize, b: usize) -> (r: Vec<char>)
    requires
        a <= b <= s@.len(),
    ensures
        r@ == s@.subrange(a as int, b as int),
{
    let mut r: Vec<char> = Vec::new();
    let mut k: usize = a;
    while k < b
        invariant
            a <= k <= b <= s@.len(),
            r@ == s@.subrange(a as int, k as int),
        decreases b - k,
    {
        r.push(s[k]);
        proof {
            assert(s@.subrange(a as int, k as int + 1) =~= s@.subrange(a as int, k as int).push(
                s@[k as int],
            ));
        }
        k = k + 1;
    }
    r
}

/// The characters of `s` as a `String`.
fn string_of(s: &[char]) -> (r: String)
    ensures
        r@ == s@,
{
    let mut r = String::new();
    push_chars(&mut r, s);
    r
}

/// `s` split at every `sep`.
fn split_chars(s: &[char], sep: char) -> (r: Vec<Vec<char>>)
    ensures
        vv(r@) == split_on(s@, sep),
{
    let mut r: Vec<Vec<char>> = Vec::new();
    r.push(Vec::new());
    let n = s.len();
    let mut i: usize = 0;
    proof {
        assert(s@.take(0) =~= Seq::<char>::empty());
        assert(vv(r@) =~= split_on(s@.take(0), sep));
    }
    while i < n
        invariant
            n == s@.len(),
            i <= n,
            r@.len() >= 1,
            vv(r@) == split_on(s@.take(i as int), sep),
        decreases n - i,
    {
        let c = s[i];
        let ghost t = s@.take(i as int + 1);
        proof {
            assert(t.drop_last() =~= s@.take(i as int));
            assert(t.last() == c);
            lemma_split_nonempty(s@.take(i as int), sep);
        }
        let ghost before = vv(r@);
        if c == sep {
            r.push(Vec::new());
            proof {
                assert(vv(r@) =~= before.push(Seq::empty()));
            }
        } else {
            let mut last = r.pop().unwrap();
            last.push(c);
            r.push(last);
            proof {
                assert(vv(r@) =~= before.update(before.len() - 1, before.last().push(c)));
            }
        }
        i = i + 1;
    }
    proof {
        assert(s@.take(n as int) =~= s@);
    }
    r
}

/// Lines pushed while cutting `word` into pieces of `max` characters, all
/// but the last piece.
pub open spec fn chunks_out(out: Seq<Seq<char>>, word: Seq<char>, max: nat) -> Seq<Seq<char>>
    decreases word.len(),
{
    if max > 0 && word.len() > max {
        chunks_out(out.push(word.take(max as int)), word.skip(max as int), max)
    } else {
        out
    }
}

/// Last piece of `word` cut into pieces of `max` characters.
pub open spec fn chunk_tail(word: Seq<char>, max: nat) -> Seq<char>
    decreases word.len(),
{
    if max > 0 && word.len() > max {
        chunk_tail(word.skip(max as int), max)
    } else {
        word
    }
}

/// One word of a paragraph into (finished lines, line being filled): a
/// word longer than a line ends the current line and is cut into pieces,
/// its last piece starting the next line; a word that fits joins the
/// current line after a space; otherwise it starts a new line.
pub open spec fn wrap_step(out: Seq<Seq<char>>, cur: Seq<char>, word: Seq<char>, max: nat) -> (
    Seq<Seq<char>>,
    Seq<char>,
) {
    if word.len() > max {
        let out1 = if cur.len() > 0 {
            out.push(cur)
        } else {
            out
        };
        (chunks_out(out1, word, max), chunk_tail(word, max))
    } else if cur.len() == 0 {
        (out, word)
    } else if cur.len() + 1 + word.len() <= max {
        (out, cur.push(' ') + word)
    } else {
        (out.push(cur), word)
    }
}

/// The words of a paragraph, in order, through `wrap_step`.
pub open spec fn wrap_words(words: Seq<Seq<char>>, max: nat) -> (Seq<Seq<char>>, Seq<char>)
    decreases words.len(),
{
    if words.len() == 0 {
        (Seq::empty(), Seq::empty())
    } else {
        let (o, c) = wrap_words(words.drop_last(), max);
        wrap_step(o, c, words.last(), max)
    }
}

/// Lines of one paragraph: a blank line for a paragraph of white space,
/// else its words (split at each space) wrapped, the last line included
/// even when empty.
pub open spec fn para_lines(para: Seq<char>, max: nat) -> Seq<Seq<char>> {
    if trim_spec(para).len() == 0 {
        seq![Seq::empty()]
    } else {
        let (o, c) = wrap_words(split_on(para, ' '), max);
        o.push(c)
    }
}

/// Lines of the paragraphs, one after the other.
pub open spec fn wrap_all(paras: Seq<Seq<char>>, max: nat) -> Seq<Seq<char>>
    decreases paras.len(),
{
    if paras.len() == 0 {
        Seq::empty()
    } else {
        wrap_all(paras.drop_last(), max) + para_lines(paras.last(), max)
    }
}

/// Lines of `text` wrapped at `max` characters: each paragraph (text
/// between line breaks) on lines of its own.
pub open spec fn wrap_text_spec(text: Seq<char>, max: nat) -> Seq<Seq<char>> {
    wrap_all(split_on(text, '\n'), max)
}

/// Appends the wrapped lines of one paragraph to `out`.
fn wrap_para(para: &[char], max: usize, out: &mut Vec<String>)
    requires
        max > 0,
    ensures
        texts(final(out)@) == texts(old(out)@) + para_lines(para@, max as nat),
{
    let ghost base = texts(out@);
    let tr = trim_chars(para);
    if tr.len() == 0 {
        let line = String::new();
        proof {
            lemma_texts_push(out@, line);
        }
        out.push(line);
        proof {
            assert(texts(out@) =~= base + seq![Seq::<char>::empty()]);
        }
        return;
    }
    let words = split_chars(para, ' ');
    let ghost ws = vv(words@);
    let n = words.len();
    let mut cur: Vec<char> = Vec::new();
    let mut i: usize = 0;
    proof {
        assert(ws.take(0) =~= Seq::<Seq<char>>::empty());
        assert(texts(out@) =~= base + Seq::<Seq<char>>::empty());
    }
    while i < n
        invariant
            max > 0,
            n == words@.len(),
            ws == vv(words@),
            i <= n,
            texts(out@) == base + wrap_words(ws.take(i as int), max as nat).0,
            cur@ == wrap_words(ws.take(i as int), max as nat).1,
        decreases n - i,
    {
        let w = words[i].as_slice();
        let wl = w.len();
        let ghost o = wrap_words(ws.take(i as int), max as nat).0;
        let ghost c = cur@;
        proof {
            assert(ws.take(i as int + 1).drop_last() =~= ws.take(i as int));
            assert(ws.take(i as int + 1).last() == w@);
        }
        if wl > max {
            if cur.len() > 0 {
                let line = string_of(cur.as_slice());
                proof {
                    lemma_texts_push(out@, line);
                }
                out.push(line);
                cur = Vec::new();
            }
            let ghost o1 = if c.len() > 0 {
                o.push(c)
            } else {
                o
            };
            proof {
                assert(texts(out@) =~= base + o1);
                assert(w@.skip(0) =~= w@);
            }
            let mut pos: usize = 0;
            let ghost mut co: Seq<Seq<char>> = o1;
            while wl - pos > max
                invariant
                    max > 0,
                    pos <= wl,
                    wl == w@.len(),
                    texts(out@) == base + co,
                    chunks_out(co, w@.skip(pos as int), max as nat) == chunks_out(o1, w@, max as nat),
                    chunk_tail(w@.skip(pos as int), max as nat) == chunk_tail(w@, max as nat),
                decreases wl - pos,
            {
                let piece = sub_chars(w, pos, pos + max);
                let line = string_of(piece.as_slice());
                proof {
                    lemma_texts_push(out@, line);
                }
                out.push(line);
                proof {
                    let rest = w@.skip(pos as int);
                    assert(rest.take(max as int) =~= w@.subrange(pos as int, pos + max));
                    assert(rest.skip(max as int) =~= w@.skip(pos + max));
                    assert(texts(out@) =~= base + co.push(rest.take(max as int)));
                    co = co.push(rest.take(max as int));
                }
                pos = pos + max;
            }
            cur = sub_chars(w, pos, wl);
            proof {
                assert(w@.skip(pos as int) =~= w@.subrange(pos as int, wl as int));
            }
        } else if cur.len() == 0 {
            cur = sub_chars(w, 0, wl);
            proof {
                assert(w@.subrange(0, wl as int) =~= w@);
            }
        } else if cur.len() < max && wl <= max - 1 - cur.len() {
            push_char_vec(&mut cur, ' ');
            append_chars(&mut cur, w);
        } else {
            let line = string_of(cur.as_slice());
            proof {
                lemma_texts_push(out@, line);
            }
            out.push(line);
            cur = sub_chars(w, 0, wl);
            proof {
                assert(w@.subrange(0, wl as int) =~= w@);
                assert(texts(out@) =~= base + o.push(c));
            }
        }
        i = i + 1;
    }
    let line = string_of(cur.as_slice());
    proof {
        lemma_texts_push(out@, line);
    }
    out.push(line);
    proof {
        assert(ws.take(n as int) =~= ws);
        let (o, c) = wrap_words(ws, max as nat);
        assert(texts(out@) =~= base + o.push(c));
    }
}

fn push_char_vec(v: &mut Vec<char>, c: char)
    ensures
        final(v)@ == old(v)@.push(c),
{
    v.push(c);
}

/// Appends the characters of `s` to `v`.
fn append_chars(v: &mut Vec<char>, s: &[char])
    ensures
        final(v)@ == old(v)@ + s@,
{
    let n = s.len();
    let mut k: usize = 0;
    while k < n
        invariant
            n == s@.len(),
            k <= n,
            v@ == old(v)@ + s@.take(k as int),
        decreases n - k,
    {
        v.push(s[k]);
        proof {
            assert(s@.take(k as int + 1) =~= s@.take(k as int).push(s@[k as int]));
        }
        k = k + 1;
    }
    proof {
        assert(s@.take(n as int) =~= s@);
    }
}

/// Wraps `text` into lines of at most `max_chars` characters (an estimate
/// of what fits a panel): line breaks of the text start new paragraphs, a
/// paragraph of white space gives a blank line, and words longer than a
/// line are cut.
pub fn wrap_text(text: &str, max_chars: usize) -> (lines: Vec<String>)
    requires
        max_chars > 0,
    ensures
        texts(lines@) == wrap_text_spec(text@, max_chars as nat),
{
    let t = chars_of(text);
    let paras = split_chars(t.as_slice(), '\n');
    let ghost ps = vv(paras@);
    let n = paras.len();
    let mut out: Vec<String> = Vec::new();
    let mut k: usize = 0;
    proof {
        assert(ps.take(0) =~= Seq::<Seq<char>>::empty());
        assert(texts(out@) =~= Seq::<Seq<char>>::empty());
    }
    while k < n
        invariant
            max_chars > 0,
            n == paras@.len(),
            ps == vv(paras@),
            ps == split_on(text@, '\n'),
            k <= n,
            texts(out@) == wrap_all(ps.take(k as int), max_chars as nat),
        decreases n - k,
    {
        wrap_para(paras[k].as_slice(), max_chars, &mut out);
        proof {
            assert(ps.take(k as int + 1).drop_last() =~= ps.take(k as int));
        }
        k = k + 1;
    }
    proof {
        assert(ps.take(n as int) =~= ps);
    }
    out
}

/// Words of `s`: its maximal runs of characters that are not white space
/// (`str::split_whitespace`).
pub open spec fn ws_words(s: Seq<char>) -> Seq<Seq<char>>
    decreases s.len(),
{
    if s.len() == 0 {
        Seq::empty()
    } else {
        let p = ws_words(s.drop_last());
        let c = s.last();
        if is_ws(c) {
            p
        } else if s.len() >= 2 && !is_ws(s[s.len() - 2]) {
            p.update(p.len() - 1, p.last().push(c))
        } else {
            p.push(seq![c])
        }
    }
}

proof fn lemma_ws_words_nonempty(s: Seq<char>)
    requires
        s.len() > 0,
        !is_ws(s.last()),
    ensures
        ws_words(s).len() > 0,
    decreases s.len(),
{
    if s.len() >= 2 && !is_ws(s[s.len() - 2]) {
        lemma_ws_words_nonempty(s.drop_last());
    }
}

/// The words of `s`.
fn ws_split(s: &[char]) -> (r: Vec<Vec<char>>)
    ensures
        vv(r@) == ws_words(s@),
{
    let n = s.len();
    let mut r: Vec<Vec<char>> = Vec::new();
    let mut prev_ws = true;
    let mut i: usize = 0;
    proof {
        assert(s@.take(0) =~= Seq::<char>::empty());
        assert(vv(r@) =~= ws_words(s@.take(0)));
    }
    while i < n
        invariant
            n == s@.len(),
            i <= n,
            vv(r@) == ws_words(s@.take(i as int)),
            i > 0 ==> prev_ws == is_ws(s@[i - 1]),
            i == 0 ==> prev_ws,
        decreases n - i,
    {
        let c = s[i];
        let ghost t = s@.take(i as int + 1);
        let ghost before = vv(r@);
        let ws = char_is_whitespace(c);
        proof {
            assert(t.drop_last() =~= s@.take(i as int));
            assert(t.last() == c);
            if i > 0 {
                assert(t[t.len() - 2] == s@[i - 1]);
                assert(s@.take(i as int).last() == s@[i - 1]);
                if !prev_ws {
                    lemma_ws_words_nonempty(s@.take(i as int));
                }
            }
        }
        if ws {
        } else if !prev_ws {
            let mut last = r.pop().unwrap();
            last.push(c);
            r.push(last);
            proof {
                assert(vv(r@) =~= before.update(before.len() - 1, before.last().push(c)));
            }
        } else {
            let mut w: Vec<char> = Vec::new();
            w.push(c);
            r.push(w);
            proof {
                assert(vv(r@) =~= before.push(seq![c]));
            }
        }
        prev_ws = ws;
        i = i + 1;
    }
    proof {
        assert(s@.take(n as int) =~= s@);
    }
    r
}

/// One word into (finished lines, line being filled): it joins the current
/// line after a space when that fits in `max` characters, else it starts a
/// new line.
pub open spec fn fill_step(out: Seq<Seq<char>>, cur: Seq<char>, word: Seq<char>, max: nat) -> (
    Seq<Seq<char>>,
    Seq<char>,
) {
    if cur.len() == 0 {
        (out, word)
    } else if cur.len() + 1 + word.len() <= max {
        (out, cur.push(' ') + word)
    } else {
        (out.push(cur), word)
    }
}

/// The words, in order, through `fill_step`.
pub open spec fn fill_words(words: Seq<Seq<char>>, max: nat) -> (Seq<Seq<char>>, Seq<char>)
    decreases words.len(),
{
    if words.len() == 0 {
        (Seq::empty(), Seq::empty())
    } else {
        let (o, c) = fill_words(words.drop_last(), max);
        fill_step(o, c, words.last(), max)
    }
}

/// Lines of one paragraph filled word by word: a blank line for a
/// paragraph of white space, else its words filled into lines of at most
/// `max` characters (a longer word stays whole on its own line).
pub open spec fn fill_para(para: Seq<char>, max: nat) -> Seq<Seq<char>> {
    let t = trim_spec(para);
    if t.len() == 0 {
        seq![Seq::empty()]
    } else {
        let (o, c) = fill_words(ws_words(t), max);
        if c.len() > 0 {
            o.push(c)
        } else {
            o
        }
    }
}

/// Lines of the paragraphs filled one after the other.
pub open spec fn fill_all(paras: Seq<Seq<char>>, max: nat) -> Seq<Seq<char>>
    decreases paras.len(),
{
    if paras.len() == 0 {
        Seq::empty()
    } else {
        fill_all(paras.drop_last(), max) + fill_para(paras.last(), max)
    }
}

/// Lines of `text` filled word by word up to `max` characters, each
/// paragraph on lines of its own.
pub open spec fn fill_text_spec(text: Seq<char>, max: nat) -> Seq<Seq<char>> {
    fill_all(split_on(text, '\n'), max)
}

/// Appends the filled lines of one paragraph to `out`.
fn fill_para_exec(para: &[char], max: usize, out: &mut Vec<String>)
    ensures
        texts(final(out)@) == texts(old(out)@) + fill_para(para@, max as nat),
{
    let ghost base = texts(out@);
    let tr = trim_chars(para);
    if tr.len() == 0 {
        let line = String::new();
        proof {
            lemma_texts_push(out@, line);
        }
        out.push(line);
        proof {
            assert(texts(out@) =~= base + seq![Seq::<char>::empty()]);
        }
        return;
    }
    let words = ws_split(tr.as_slice());
    let ghost ws = vv(words@);
    let n = words.len();
    let mut cur: Vec<char> = Vec::new();
    let mut i: usize = 0;
    proof {
        assert(ws.take(0) =~= Seq::<Seq<char>>::empty());
        assert(texts(out@) =~= base + Seq::<Seq<char>>::empty());
    }
    while i < n
        invariant
            n == words@.len(),
            ws == vv(words@),
            i <= n,
            texts(out@) == base + fill_words(ws.take(i as int), max as nat).0,
            cur@ == fill_words(ws.take(i as int), max as nat).1,
        decreases n - i,
    {
        let w = words[i].as_slice();
        let wl = w.len();
        let ghost o = fill_words(ws.take(i as int), max as nat).0;
        let ghost c = cur@;
        proof {
            assert(ws.take(i as int + 1).drop_last() =~= ws.take(i as int));
            assert(ws.take(i as int + 1).last() == w@);
        }
        if cur.len() == 0 {
            cur = sub_chars(w, 0, wl);
            proof {
                assert(w@.subrange(0, wl as int) =~= w@);
            }
        } else if cur.len() < max && wl <= max - 1 - cur.len() {
            push_char_vec(&mut cur, ' ');
            append_chars(&mut cur, w);
        } else {
            let line = string_of(cur.as_slice());
            proof {
                lemma_texts_push(out@, line);
            }
            out.push(line);
            cur = sub_chars(w, 0, wl);
            proof {
                assert(w@.subrange(0, wl as int) =~= w@);
                assert(texts(out@) =~= base + o.push(c));
            }
        }
        i = i + 1;
    }
    proof {
        assert(ws.take(n as int) =~= ws);
    }
    if cur.len() > 0 {
        let line = string_of(cur.as_slice());
        proof {
            lemma_texts_push(out@, line);
        }
        out.push(line);
        proof {
            let (o, c) = fill_words(ws, max as nat);
            assert(texts(out@) =~= base + o.push(c));
        }
    }
}

/// Wraps `text` into lines of about `max_chars` characters, word by word:
/// line breaks start new paragraphs, a paragraph of white space gives a
/// blank line, runs of white space separate words, and a word longer than
/// a line stays whole on a line of its own.
pub fn wrap_text_chars(text: &str, max_chars: usize) -> (lines: Vec<String>)
    ensures
        texts(lines@) == fill_text_spec(text@, max_chars as nat),
{
    let t = chars_of(text);
    let paras = split_chars(t.as_slice(), '\n');
    let ghost ps = vv(paras@);
    let n = paras.len();
    let mut out: Vec<String> = Vec::new();
    let mut k: usize = 0;
    proof {
        assert(ps.take(0) =~= Seq::<Seq<char>>::empty());
        assert(texts(out@) =~= Seq::<Seq<char>>::empty());
    }
    while k < n
        invariant
            n == paras@.len(),
            ps == vv(paras@),
            ps == split_on(text@, '\n'),
            k <= n,
            texts(out@) == fill_all(ps.take(k as int), max_chars as nat),
        decreases n - k,
    {
        fill_para_exec(paras[k].as_slice(), max_chars, &mut out);
        proof {
            assert(ps.take(k as int + 1).drop_last() =~= ps.take(k as int));
        }
        k = k + 1;
    }
    proof {
        assert(ps.take(n as int) =~= ps);
    }
    out
}

/// Every line is at most `max` characters long.
pub open spec fn lines_fit(lines: Seq<Seq<char>>, max: nat) -> bool {
    forall|k: int| 0 <= k < lines.len() ==> (#[trigger] lines[k]).len() <= max
}

proof fn lemma_chunks_fit(out: Seq<Seq<char>>, word: Seq<char>, max: nat)
    requires
        max > 0,
        lines_fit(out, max),
    ensures
        lines_fit(chunks_out(out, word, max), max),
        word.len() > max ==> chunk_tail(word, max).len() <= max,
    decreases word.len(),
{
    if word.len() > max {
        let o2 = out.push(word.take(max as int));
        assert(lines_fit(o2, max)) by {
            assert forall|k: int| 0 <= k < o2.len() implies (#[trigger] o2[k]).len() <= max by {
                if k < out.len() {
                    assert(o2[k] == out[k]);
                }
            }
        }
        lemma_chunks_fit(o2, word.skip(max as int), max);
        let rest = word.skip(max as int);
        if rest.len() <= max {
            assert(chunk_tail(rest, max) == rest);
        }
        assert(chunk_tail(word, max) == chunk_tail(rest, max));
    }
}

proof fn lemma_wrap_words_fit(words: Seq<Seq<char>>, max: nat)
    requires
        max > 0,
    ensures
        lines_fit(wrap_words(words, max).0, max),
        wrap_words(words, max).1.len() <= max,
    decreases words.len(),
{
    if words.len() > 0 {
        lemma_wrap_words_fit(words.drop_last(), max);
        let (o, c) = wrap_words(words.drop_last(), max);
        let word = words.last();
        if word.len() > max {
            let o1 = if c.len() > 0 {
                o.push(c)
            } else {
                o
            };
            assert(lines_fit(o1, max)) by {
                assert forall|k: int| 0 <= k < o1.len() implies (#[trigger] o1[k]).len() <= max by {
                    if k < o.len() {
                        assert(o1[k] == o[k]);
                    }
                }
            }
            lemma_chunks_fit(o1, word, max);
        } else if c.len() > 0 && c.len() + 1 + word.len() > max {
            let o1 = o.push(c);
            assert forall|k: int| 0 <= k < o1.len() implies (#[trigger] o1[k]).len() <= max by {
                if k < o.len() {
                    assert(o1[k] == o[k]);
                }
            }
        }
    }
}

proof fn lemma_wrap_all_fit(paras: Seq<Seq<char>>, max: nat)
    requires
        max > 0,
    ensures
        lines_fit(wrap_all(paras, max), max),
    decreases paras.len(),
{
    if paras.len() > 0 {
        lemma_wrap_all_fit(paras.drop_last(), max);
        let a = wrap_all(paras.drop_last(), max);
        let para = paras.last();
        let b = para_lines(para, max);
        if trim_spec(para).len() != 0 {
            lemma_wrap_words_fit(split_on(para, ' '), max);
            let (o, c) = wrap_words(split_on(para, ' '), max);
            assert forall|k: int| 0 <= k < b.len() implies (#[trigger] b[k]).len() <= max by {
                if k < o.len() {
                    assert(b[k] == o[k]);
                }
            }
        }
        assert forall|k: int| 0 <= k < (a + b).len() implies (#[trigger] (a + b)[k]).len()
            <= max by {
            if k < a.len() {
                assert((a + b)[k] == a[k]);
            } else {
                assert((a + b)[k] == b[k - a.len()]);
            }
        }
    }
}

/// No wrapped line is longer than the limit.
pub proof fn law_wrapped_lines_fit(text: Seq<char>, max: nat)
    requires
        max > 0,
    ensures
        lines_fit(wrap_text_spec(text, max), max),
{
    lemma_wrap_all_fit(split_on(text, '\n'), max);
}

/// `s` without its trailing `/` characters (`trim_end_matches('/')`).
pub open spec fn strip_slashes(s: Seq<char>) -> Seq<char>
    decreases s.len(),
{
    if s.len() > 0 && s.last() == '/' {
        strip_slashes(s.drop_last())
    } else {
        s
    }
}

/// Separator of the parts of the search summary: `" · "`.
pub open spec fn summary_sep() -> Seq<char> {
    seq![' ', '\u{B7}', ' ']
}

/// Parts of the summary of the letter and folder filters, in that order.
pub open spec fn filter_parts(letter: Option<char>, folder: Option<Seq<char>>) -> Seq<Seq<char>> {
    let a: Seq<Seq<char>> = match letter {
        Some(l) => seq![seq![l]],
        None => Seq::empty(),
    };
    match folder {
        Some(f) => a.push(strip_slashes(f)),
        None => a,
    }
}

/// Summary shown in the library's search field, and whether a filter is
/// active: the typed query when there is one; else the letter and folder
/// filters (the folder without trailing slashes) joined with `" · "`;
/// else nothing.
pub open spec fn search_summary_spec(query: Seq<char>, letter: Option<char>, folder: Option<Seq<char>>) -> (
    Seq<char>,
    bool,
) {
    if query.len() > 0 {
        (query, true)
    } else {
        let parts = filter_parts(letter, folder);
        if parts.len() == 0 {
            (Seq::empty(), false)
        } else {
            (join_with(parts, summary_sep()), true)
        }
    }
}

/// `s` without its trailing slashes.
fn strip_slashes_exec(s: &[char]) -> (r: Vec<char>)
    ensures
        r@ == strip_slashes(s@),
{
    let mut j = s.len();
    proof {
        assert(s@.subrange(0, j as int) =~= s@);
    }
    while j > 0 && s[j - 1] == '/'
        invariant
            j <= s@.len(),
            strip_slashes(s@) == strip_slashes(s@.subrange(0, j as int)),
        decreases j,
    {
        proof {
            assert(s@.subrange(0, j as int).drop_last() =~= s@.subrange(0, j as int - 1));
        }
        j = j - 1;
    }
    sub_chars(s, 0, j)
}

/// The library search field's summary and whether a filter is active.
pub fn search_summary(query: &str, letter: Option<char>, folder: Option<&str>) -> (r: (
    String,
    bool,
))
    ensures
        (r.0@, r.1) == search_summary_spec(
            query@,
            letter,
            match folder {
                Some(f) => Some(f@),
                None => None,
            },
        ),
{
    let q = chars_of(query);
    if q.len() > 0 {
        return (string_of(q.as_slice()), true);
    }
    let ghost fo: Option<Seq<char>> = match folder {
        Some(f) => Some(f@),
        None => None,
    };
    let ghost parts = filter_parts(letter, fo);
    let mut out = String::new();
    let mut any = false;
    match letter {
        Some(l) => {
            push_char(&mut out, l);
            any = true;
        },
        None => {},
    }
    match folder {
        Some(f) => {
            let fc = chars_of(f);
            let stripped = strip_slashes_exec(fc.as_slice());
            if any {
                push_str_chars(&mut out, " \u{B7} ");
                proof {
                    reveal_strlit(" \u{B7} ");
                }
            }
            push_chars(&mut out, stripped.as_slice());
            proof {
                if letter is Some {
                    assert(parts.drop_last() =~= seq![seq![letter->0]]);
                    assert(parts.len() == 2);
                    assert(parts.last() == strip_slashes(f@));
                    assert(join_with(parts.drop_last(), summary_sep()) == seq![letter->0]);
                    assert(out@ =~= seq![letter->0] + summary_sep() + strip_slashes(f@));
                    assert(out@ =~= join_with(parts, summary_sep()));
                } else {
                    assert(parts =~= seq![strip_slashes(f@)]);
                }
            }
            any = true;
        },
        None => {
            proof {
                if letter is Some {
                    assert(parts =~= seq![seq![letter->0]]);
                    assert(out@ =~= seq![letter->0]);
                }
            }
        },
    }
    (out, any)
}

/// Label of the page badge: `<page + 1> / <pages>` (`page` counts from 0).
pub fn page_label(page: usize, pages: usize) -> (s: String)
    requires
        page < usize::MAX,
    ensures
        s@ == decimal(page as nat + 1) + seq![' ', '/', ' '] + decimal(pages as nat),
{
    let mut s = String::new();
    push_decimal(&mut s, page + 1);
    push_str_chars(&mut s, " / ");
    push_decimal(&mut s, pages);
    proof {
        reveal_strlit(" / ");
        assert(s@ =~= decimal(page as nat + 1) + seq![' ', '/', ' '] + decimal(pages as nat));
    }
    s
}

/// Rust's integer division, rounding towards zero.
pub open spec fn trunc_div(a: int, b: int) -> int {
    if a >= 0 {
        a / b
    } else {
        -((-a) / b)
    }
}

/// Rectangle (left, top, right, bottom) of the pen mode badge in a
/// `win_w × win_h` window: a 56-pixel-wide pill, `max(win_h / 60, 30)`
/// pixels high, `max(win_w / 96, 8)` pixels from the bottom right corner.
pub open spec fn mode_badge_spec(win_w: int, win_h: int) -> (int, int, int, int) {
    let bh = if trunc_div(win_h, 60) > 30 {
        trunc_div(win_h, 60)
    } else {
        30
    };
    let pad = if trunc_div(win_w, 96) > 8 {
        trunc_div(win_w, 96)
    } else {
        8
    };
    (win_w - 56 - pad, win_h - bh - pad, win_w - pad, win_h - pad)
}

/// Rectangle of the pen mode badge.
pub fn mode_badge_rect(win_w: i32, win_h: i32) -> (r: (i32, i32, i32, i32))
    requires
        mode_badge_spec(win_w as int, win_h as int).0 >= i32::MIN,
        mode_badge_spec(win_w as int, win_h as int).1 >= i32::MIN,
    ensures
        (r.0 as int, r.1 as int, r.2 as int, r.3 as int) == mode_badge_spec(
            win_w as int,
            win_h as int,
        ),
{
    let bw: i32 = 56;
    let hq = win_h / 60;
    let bh: i32 = if hq > 30 {
        hq
    } else {
        30
    };
    let wq = win_w / 96;
    let pad: i32 = if wq > 8 {
        wq
    } else {
        8
    };
    (win_w - bw - pad, win_h - bh - pad, win_w - pad, win_h - pad)
}


/// A text without the separator is a single piece.
proof fn lemma_split_without_sep(s: Seq<char>, sep: char)
    requires
        forall|j: int| 0 <= j < s.len() ==> s[j] != sep,
    ensures
        split_on(s, sep) == seq![s],
    decreases s.len(),
{
    if s.len() > 0 {
        lemma_split_without_sep(s.drop_last(), sep);
        assert(s[s.len() - 1] != sep);
        assert(s.drop_last().push(s.last()) =~= s);
        assert(seq![s.drop_last()].update(0, s.drop_last().push(s.last())) =~= seq![s]);
    } else {
        assert(s =~= Seq::<char>::empty());
    }
}

/// Joining the pieces of a text with the separator gives the text back.
proof fn lemma_join_split(s: Seq<char>, sep: char)
    ensures
        join_with(split_on(s, sep), seq![sep]) == s,
    decreases s.len(),
{
    if s.len() == 0 {
        assert(s =~= Seq::<char>::empty());
    } else {
        let t = s.drop_last();
        let p = split_on(t, sep);
        lemma_join_split(t, sep);
        lemma_split_nonempty(t, sep);
        assert(t.push(s.last()) =~= s);
        if s.last() == sep {
            let q = p.push(Seq::empty());
            assert(q.drop_last() =~= p);
            assert(join_with(q, seq![sep]) == join_with(p, seq![sep]) + seq![sep] + Seq::<char>::empty());
            assert(join_with(q, seq![sep]) =~= s);
        } else {
            let q = p.update(p.len() - 1, p.last().push(s.last()));
            if p.len() == 1 {
                assert(q.len() == 1);
                assert(join_with(p, seq![sep]) == p[0]);
                assert(q[0] =~= s);
            } else {
                assert(q.drop_last() =~= p.drop_last());
                assert(join_with(p, seq![sep]) == join_with(p.drop_last(), seq![sep]) + seq![sep]
                    + p.last());
                assert(q.last() == p.last().push(s.last()));
                assert(join_with(q, seq![sep]) == join_with(p.drop_last(), seq![sep]) + seq![sep]
                    + p.last().push(s.last()));
                assert(join_with(q, seq![sep]) =~= s);
            }
        }
    }
}

/// A text that does not start with the separator has a non-empty first
/// piece.
proof fn lemma_split_first_nonempty(s: Seq<char>, sep: char)
    requires
        s.len() > 0,
        s[0] != sep,
    ensures
        split_on(s, sep)[0].len() > 0,
    decreases s.len(),
{
    let t = s.drop_last();
    lemma_split_nonempty(t, sep);
    if t.len() == 0 {
        assert(split_on(t, sep) =~= seq![Seq::<char>::empty()]);
    } else {
        lemma_split_first_nonempty(t, sep);
    }
}

/// A join is at least as long as its first part.
proof fn lemma_join_first(v: Seq<Seq<char>>, sep: Seq<char>)
    requires
        v.len() >= 1,
    ensures
        join_with(v, sep).len() >= v[0].len(),
    decreases v.len(),
{
    if v.len() > 1 {
        lemma_join_first(v.drop_last(), sep);
    }
}

/// Words whose joined length fits in a line all go on one line, the
/// current one, joined with single spaces.
proof fn lemma_wrap_fitting_words(words: Seq<Seq<char>>, max: nat)
    requires
        words.len() >= 1,
        words[0].len() > 0,
        join_with(words, seq![' ']).len() <= max,
    ensures
        wrap_words(words, max) == (Seq::<Seq<char>>::empty(), join_with(words, seq![' '])),
    decreases words.len(),
{
    if words.len() == 1 {
        assert(words.drop_last() =~= Seq::<Seq<char>>::empty());
        assert(wrap_words(words.drop_last(), max) == (
            Seq::<Seq<char>>::empty(),
            Seq::<char>::empty(),
        ));
        assert(join_with(words, seq![' ']) == words[0]);
        assert(words.last() == words[0]);
    } else {
        let v = words.drop_last();
        assert(v[0] == words[0]);
        lemma_wrap_fitting_words(v, max);
        lemma_join_first(v, seq![' ']);
        let cur = join_with(v, seq![' ']);
        assert(join_with(words, seq![' ']) == cur + seq![' '] + words.last());
        assert(cur.len() > 0);
        assert(words.last().len() <= max);
        assert(cur.len() + 1 + words.last().len() <= max);
        assert(cur.push(' ') + words.last() =~= cur + seq![' '] + words.last());
    }
}

/// Greedy filling keeps a short paragraph whole: a paragraph of at most
/// `max` characters, not blank and not starting with a space, comes out as
/// exactly one line equal to it.
pub proof fn law_short_paragraph_one_line(para: Seq<char>, max: nat)
    requires
        max > 0,
        0 < para.len() <= max,
        para[0] != ' ',
        forall|j: int| 0 <= j < para.len() ==> para[j] != '\n',
        trim_spec(para).len() > 0,
    ensures
        wrap_text_spec(para, max) == seq![para],
{
    lemma_split_without_sep(para, '\n');
    let paras = split_on(para, '\n');
    assert(paras.drop_last() =~= Seq::<Seq<char>>::empty());
    let words = split_on(para, ' ');
    lemma_split_nonempty(para, ' ');
    lemma_split_first_nonempty(para, ' ');
    lemma_join_split(para, ' ');
    lemma_wrap_fitting_words(words, max);
    assert(paras.last() == para);
    assert(wrap_all(paras.drop_last(), max) == Seq::<Seq<char>>::empty());
    assert(para_lines(para, max) =~= seq![para]);
    assert(wrap_all(paras, max) =~= seq![para]);
}


/// Appending characters without the separator extends the last piece.
proof fn lemma_split_append(s: Seq<char>, w: Seq<char>, sep: char)
    requires
        forall|j: int| 0 <= j < w.len() ==> w[j] != sep,
    ensures
        split_on(s + w, sep) == split_on(s, sep).update(
            split_on(s, sep).len() - 1,
            split_on(s, sep).last() + w,
        ),
    decreases w.len(),
{
    lemma_split_nonempty(s, sep);
    let p = split_on(s, sep);
    if w.len() == 0 {
        assert(s + w =~= s);
        assert(p.last() + w =~= p.last());
        assert(p.update(p.len() - 1, p.last()) =~= p);
    } else {
        let v = w.drop_last();
        lemma_split_append(s, v, sep);
        assert((s + w).drop_last() =~= s + v);
        assert((s + w).last() == w.last());
        assert(w[w.len() - 1] != sep);
        let q = split_on(s + v, sep);
        assert(q == p.update(p.len() - 1, p.last() + v));
        assert(q.last() == p.last() + v);
        assert(q.last().push(w.last()) =~= p.last() + w);
        assert(q.update(q.len() - 1, q.last().push(w.last())) =~= p.update(
            p.len() - 1,
            p.last() + w,
        ));
    }
}

/// Lines of a text that is a single paragraph.
proof fn lemma_single_paragraph(text: Seq<char>, max: nat)
    requires
        forall|j: int| 0 <= j < text.len() ==> text[j] != '\n',
    ensures
        wrap_text_spec(text, max) == para_lines(text, max),
{
    lemma_split_without_sep(text, '\n');
    let paras = split_on(text, '\n');
    assert(paras.drop_last() =~= Seq::<Seq<char>>::empty());
    assert(paras.last() == text);
    assert(wrap_all(paras.drop_last(), max) == Seq::<Seq<char>>::empty());
    assert(wrap_all(paras, max) =~= para_lines(text, max));
}

/// Lines fill greedily, one word at a time: appending a space and a word
/// that fits a line to a paragraph puts the word at the end of the last
/// line when that line plus a space plus the word still fits (or the last
/// line is empty), and on a new line of its own otherwise; the other lines
/// stay as they were.
pub proof fn law_wrap_appends_word(para: Seq<char>, word: Seq<char>, max: nat)
    requires
        max > 0,
        forall|j: int| 0 <= j < para.len() ==> para[j] != '\n',
        forall|j: int| 0 <= j < word.len() ==> word[j] != '\n' && word[j] != ' ',
        0 < word.len() <= max,
        trim_spec(para).len() > 0,
        trim_spec(para.push(' ') + word).len() > 0,
    ensures
        ({
            let l = wrap_text_spec(para, max);
            let l2 = wrap_text_spec(para.push(' ') + word, max);
            let last = l.last();
            &&& l.len() >= 1
            &&& last.len() == 0 ==> l2 == l.update(l.len() - 1, word)
            &&& last.len() > 0 && last.len() + 1 + word.len() <= max ==> l2 == l.update(
                l.len() - 1,
                last.push(' ') + word,
            )
            &&& last.len() > 0 && last.len() + 1 + word.len() > max ==> l2 == l.push(word)
        }),
{
    let q = para.push(' ') + word;
    assert forall|j: int| 0 <= j < q.len() implies q[j] != '\n' by {
        if j < para.len() {
            assert(q[j] == para[j]);
        } else if j > para.len() {
            assert(q[j] == word[j - para.len() - 1]);
        }
    }
    lemma_single_paragraph(para, max);
    lemma_single_paragraph(q, max);
    let ws = split_on(para, ' ');
    lemma_split_nonempty(para, ' ');
    lemma_split_append(para.push(' '), word, ' ');
    let p1 = para.push(' ');
    assert(p1.drop_last() =~= para);
    assert(split_on(p1, ' ') == ws.push(Seq::empty()));
    let w2 = split_on(q, ' ');
    assert(w2 =~= ws.push(word)) by {
        assert(Seq::<char>::empty() + word =~= word);
    }
    assert(w2.drop_last() =~= ws);
    let (o, c) = wrap_words(ws, max);
    assert(wrap_words(w2, max) == wrap_step(o, c, word, max));
    let l = o.push(c);
    assert(l.last() == c);
    assert(l.update(l.len() - 1, word) =~= o.push(word));
    assert(l.update(l.len() - 1, c.push(' ') + word) =~= o.push(c.push(' ') + word));
}


/// Word-by-word filling is greedy: one more word joins the line being
/// filled after a space when the line is empty or the result has at most
/// `max` characters; otherwise the line is finished and the word starts
/// the next one. Finished lines never change.
pub proof fn law_fill_appends_word(words: Seq<Seq<char>>, word: Seq<char>, max: nat)
    ensures
        ({
            let (o, c) = fill_words(words, max);
            let (o2, c2) = fill_words(words.push(word), max);
            &&& c.len() == 0 ==> o2 == o && c2 == word
            &&& c.len() > 0 && c.len() + 1 + word.len() <= max ==> o2 == o && c2 == c + seq![' ']
                + word
            &&& c.len() > 0 && c.len() + 1 + word.len() > max ==> o2 == o.push(c) && c2 == word
        }),
{
    assert(words.push(word).drop_last() =~= words);
    let (o, c) = fill_words(words, max);
    assert(c.push(' ') + word =~= c + seq![' '] + word);
}


/// The lines one after the other, without separators.
pub open spec fn concat_lines(lines: Seq<Seq<char>>) -> Seq<char>
    decreases lines.len(),
{
    if lines.len() == 0 {
        Seq::empty()
    } else {
        lines[0] + concat_lines(lines.drop_first())
    }
}

proof fn lemma_chunks_cut(out: Seq<Seq<char>>, word: Seq<char>, max: nat)
    requires
        max > 0,
    ensures
        ({
            let c = chunks_out(out, word, max);
            let t = chunk_tail(word, max);
            &&& c.len() >= out.len()
            &&& c.take(out.len() as int) == out
            &&& forall|k: int| out.len() <= k < c.len() ==> (#[trigger] c[k]).len() == max
            &&& concat_lines(c.skip(out.len() as int).push(t)) == word
            &&& t.len() <= max
            &&& word.len() > 0 ==> t.len() > 0
        }),
    decreases word.len(),
{
    let c = chunks_out(out, word, max);
    let t = chunk_tail(word, max);
    if word.len() > max {
        let o2 = out.push(word.take(max as int));
        let rest = word.skip(max as int);
        lemma_chunks_cut(o2, rest, max);
        assert(c == chunks_out(o2, rest, max));
        assert(t == chunk_tail(rest, max));
        assert(c.take(o2.len() as int) == o2);
        assert(c.take(out.len() as int) =~= o2.take(out.len() as int));
        assert(o2.take(out.len() as int) =~= out);
        assert(c[out.len() as int] == o2[out.len() as int]);
        let tail_lines = c.skip(out.len() as int).push(t);
        let rest_lines = c.skip(o2.len() as int).push(t);
        assert(tail_lines.drop_first() =~= rest_lines);
        assert(tail_lines[0] == word.take(max as int));
        assert(word.take(max as int) + rest =~= word);
        assert(concat_lines(rest_lines) == rest);
        assert(concat_lines(tail_lines) == tail_lines[0] + concat_lines(tail_lines.drop_first()));
        assert(concat_lines(tail_lines) == word);
        assert(rest.len() > 0);
        assert forall|k: int| out.len() <= k < c.len() implies (#[trigger] c[k]).len() == max by {
            if k == out.len() {
                assert(c[k] == word.take(max as int));
            }
        }
    } else {
        assert(c.take(out.len() as int) =~= out);
        assert(c.skip(out.len() as int).push(t) =~= seq![word]);
        assert(seq![word].drop_first() =~= Seq::<Seq<char>>::empty());
        assert(word + Seq::<char>::empty() =~= word);
        assert(concat_lines(seq![word]) == word + concat_lines(Seq::<Seq<char>>::empty()));
    }
}

/// A word longer than a line is cut into pieces: every line but the last
/// has exactly `max` characters, the last one between 1 and `max`, and the
/// lines one after the other give the word back.
pub proof fn law_long_word_cut(word: Seq<char>, max: nat)
    requires
        max > 0,
        word.len() > max,
        forall|j: int| 0 <= j < word.len() ==> word[j] != '\n' && word[j] != ' ',
        trim_spec(word).len() > 0,
    ensures
        ({
            let l = wrap_text_spec(word, max);
            &&& l.len() >= 2
            &&& concat_lines(l) == word
            &&& forall|k: int| 0 <= k < l.len() - 1 ==> (#[trigger] l[k]).len() == max
            &&& 0 < l.last().len() <= max
        }),
{
    lemma_single_paragraph(word, max);
    assert forall|j: int| 0 <= j < word.len() implies word[j] != ' ' by {}
    lemma_split_without_sep(word, ' ');
    let ws = split_on(word, ' ');
    assert(ws.drop_last() =~= Seq::<Seq<char>>::empty());
    assert(ws.last() == word);
    let e = Seq::<Seq<char>>::empty();
    assert(wrap_words(ws.drop_last(), max) == (e, Seq::<char>::empty()));
    lemma_chunks_cut(e, word, max);
    let c = chunks_out(e, word, max);
    let t = chunk_tail(word, max);
    assert(wrap_words(ws, max) == (c, t));
    let l = c.push(t);
    assert(c.skip(0) =~= c);
    assert(wrap_text_spec(word, max) == l);
    let o2 = e.push(word.take(max as int));
    assert(c == chunks_out(o2, word.skip(max as int), max));
    lemma_chunks_cut(o2, word.skip(max as int), max);
    assert(c.len() >= 1);
}


/// Trailing slashes go and nothing else: the result is a prefix of the
/// folder, does not end with `/`, and only `/` follow it in the folder.
pub proof fn law_strip_slashes(f: Seq<char>)
    ensures
        ({
            let t = strip_slashes(f);
            &&& t.len() <= f.len()
            &&& f.take(t.len() as int) == t
            &&& t.len() > 0 ==> t.last() != '/'
            &&& forall|j: int| t.len() <= j < f.len() ==> #[trigger] f[j] == '/'
        }),
    decreases f.len(),
{
    if f.len() > 0 && f.last() == '/' {
        law_strip_slashes(f.drop_last());
        let t = strip_slashes(f);
        assert(f.take(t.len() as int) =~= f.drop_last().take(t.len() as int));
        assert forall|j: int| t.len() <= j < f.len() implies #[trigger] f[j] == '/' by {
            if j < f.len() - 1 {
                assert(f[j] == f.drop_last()[j]);
            }
        }
    } else {
        assert(f.take(f.len() as int) =~= f);
    }
}

/// The search field shows the typed query when there is one (a filter is
/// then active); otherwise the letter, then `" · "`, then the folder
/// without trailing slashes, whichever of them is set; with neither it is
/// empty and no filter is active.
pub proof fn law_search_summary(query: Seq<char>, letter: Option<char>, folder: Option<Seq<char>>)
    ensures
        ({
            let (text, active) = search_summary_spec(query, letter, folder);
            &&& query.len() > 0 ==> text == query && active
            &&& query.len() == 0 ==> match (letter, folder) {
                (None, None) => text.len() == 0 && !active,
                (Some(l), None) => text == seq![l] && active,
                (None, Some(f)) => text == strip_slashes(f) && active,
                (Some(l), Some(f)) => text == seq![l, ' ', '\u{B7}', ' '] + strip_slashes(f)
                    && active,
            }
        }),
{
    let parts = filter_parts(letter, folder);
    match (letter, folder) {
        (Some(l), Some(f)) => {
            assert(parts.drop_last() =~= seq![seq![l]]);
            assert(join_with(parts.drop_last(), summary_sep()) == seq![l]);
            assert(seq![l] + summary_sep() + strip_slashes(f) =~= seq![l, ' ', '\u{B7}', ' ']
                + strip_slashes(f));
        },
        (Some(l), None) => {
            assert(parts =~= seq![seq![l]]);
        },
        (None, Some(f)) => {
            assert(parts =~= seq![strip_slashes(f)]);
        },
        (None, None) => {
            assert(parts =~= Seq::<Seq<char>>::empty());
        },
    }
}

/// The mode badge is a 56-pixel-wide pill, at least 30 pixels high, set
/// the same margin (at least 8 pixels) in from the right and bottom edges
/// of the window.
pub proof fn law_mode_badge_geometry(win_w: int, win_h: int)
    ensures
        ({
            let (l, t, r, b) = mode_badge_spec(win_w, win_h);
            &&& r - l == 56
            &&& b - t >= 30
            &&& win_w - r == win_h - b
            &&& win_w - r >= 8
            &&& win_h >= 0 ==> b - t == if win_h / 60 > 30 {
                win_h / 60
            } else {
                30
            }
        }),
{
}

} // verus!
