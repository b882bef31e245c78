use vstd::prelude::*;
use vstd::utf8::encode_utf8;
use crate::chars::chars_of;
use crate::chars::seq_contains_run;
use crate::chars::string_from_chars;
use crate::chars::to_lowercase;
use crate::chars::unicode_lowercase;
use crate::chars::is_alphanumeric;
use crate::chars::unicode_alphanumeric;
use crate::chars::is_whitespace;
use crate::chars::is_unicode_whitespace;
use crate::node_id::NodeId;
use crate::node_id::NodeIdView;
use crate::model::Doc;
use crate::model::DocView;

verus! {

broadcast use vstd::string::group_string_axioms;

// ----------------------------------------------------------------------------
// Markdown events
// ----------------------------------------------------------------------------

/// An event of a Markdown parse, as far as text extraction reads it.
pub enum MdEvent {
    Text(String),
    Code(String),
    Other,
}

pub ghost enum MdEventView {
    Text(Seq<char>),
    Code(Seq<char>),
    Other,
}

impl View for MdEvent {
    type V = MdEventView;

    open spec fn view(&self) -> MdEventView {
        match self {
            MdEvent::Text(t) => MdEventView::Text(t@),
            MdEvent::Code(t) => MdEventView::Code(t@),
            MdEvent::Other => MdEventView::Other,
        }
    }
}

/// The events that `pulldown_cmark::Parser::new` yields for this Markdown text
/// (default options), in order: the text of each `Text` and `Code` event, and
/// `Other` for every other event.
pub uninterp spec fn markdown_events(md: Seq<char>) -> Seq<MdEventView>;

/// Trusted: runs `pulldown_cmark::Parser::new(md)` to the end and converts each
/// event, one for one, into an `MdEvent`. The contract only names the sequence; the
/// CommonMark grammar that decides it is not stated.
#[verifier::external_body]
fn parse_markdown(md: &str) -> (r: Vec<MdEvent>)
    ensures
        r@.map_values(|e: MdEvent| e@) == markdown_events(md@),
{
    let mut out: Vec<MdEvent> = Vec::new();
    for event in pulldown_cmark::Parser::new(md) {
        out.push(match event {
            pulldown_cmark::Event::Text(t) => MdEvent::Text(t.to_string()),
            pulldown_cmark::Event::Code(t) => MdEvent::Code(t.to_string()),
            _ => MdEvent::Other,
        });
    }
    out
}

/// The plain text of a parse: each text or code fragment followed by a space.
pub open spec fn plain_text(events: Seq<MdEventView>) -> Seq<char>
    decreases events.len(),
{
    if events.len() == 0 {
        seq![]
    } else {
        let r = plain_text(events.drop_last());
        match events.last() {
            MdEventView::Text(t) => r + t + seq![' '],
            MdEventView::Code(t) => r + t + seq![' '],
            MdEventView::Other => r,
        }
    }
}

/// The plain text of a Markdown document.
pub fn markdown_plain_text(md: &str) -> (text: Vec<char>)
    ensures
        text@ == plain_text(markdown_events(md@)),
{
    let events = parse_markdown(md);
    let ghost ev = events@.map_values(|e: MdEvent| e@);
    let mut acc: Vec<char> = Vec::new();
    let mut i: usize = 0;
    while i < events.len()
        invariant
            i <= events.len(),
            ev == events@.map_values(|e: MdEvent| e@),
            ev == markdown_events(md@),
            acc@ == plain_text(ev.take(i as int)),
        decreases events.len() - i,
    {
        let ghost before = acc@;
        assert(ev.take(i + 1).drop_last() =~= ev.take(i as int));
        assert(ev.take(i + 1).last() == events@[i as int]@);
        match &events[i] {
            MdEvent::Text(t) => {
                append_chars(&mut acc, t.as_str());
                acc.push(' ');
                assert(acc@ =~= before + t@ + seq![' ']);
            },
            MdEvent::Code(t) => {
                append_chars(&mut acc, t.as_str());
                acc.push(' ');
                assert(acc@ =~= before + t@ + seq![' ']);
            },
            MdEvent::Other => {},
        }
        i = i + 1;
    }
    assert(ev.take(events.len() as int) =~= ev);
    acc
}

/// Appends the characters of `s`.
pub fn append_chars(acc: &mut Vec<char>, s: &str)
    ensures
        final(acc)@ == old(acc)@ + s@,
{
    let cs = chars_of(s);
    let mut i: usize = 0;
    while i < cs.len()
        invariant
            i <= cs.len(),
            cs@ == s@,
            acc@ == old(acc)@ + cs@.take(i as int),
        decreases cs.len() - i,
    {
        acc.push(cs[i]);
        assert(acc@ =~= old(acc)@ + cs@.take(i + 1));
        i = i + 1;
    }
    assert(cs@.take(cs.len() as int) =~= cs@);
}

// ----------------------------------------------------------------------------
// Words and keywords
// ----------------------------------------------------------------------------

/// The pieces of `s` between whitespace characters.
pub open spec fn split_ws(s: Seq<char>) -> Seq<Seq<char>>
    decreases s.len(),
{
    if s.len() == 0 {
        seq![seq![]]
    } else {
        let r = split_ws(s.drop_last());
        if is_unicode_whitespace(s.last()) {
            r.push(seq![])
        } else {
            r.update(r.len() - 1, r.last().push(s.last()))
        }
    }
}

/// The non-empty pieces, in order.
pub open spec fn nonempty_pieces(ps: Seq<Seq<char>>) -> Seq<Seq<char>>
    decreases ps.len(),
{
    if ps.len() == 0 {
        seq![]
    } else {
        let r = nonempty_pieces(ps.drop_last());
        if ps.last().len() > 0 {
            r.push(ps.last())
        } else {
            r
        }
    }
}

/// The words of a text: its maximal runs of non-whitespace characters, as
/// `str::split_whitespace` yields them.
pub open spec fn words(s: Seq<char>) -> Seq<Seq<char>> {
    nonempty_pieces(split_ws(s))
}

/// A lower-cased word that is kept as a token: more than two bytes of UTF-8, and
/// alphanumeric throughout.
pub open spec fn token_ok(w: Seq<char>) -> bool {
    &&& encode_utf8(w).len() as usize > 2
    &&& forall|i: int| 0 <= i < w.len() ==> unicode_alphanumeric(#[trigger] w[i])
}

/// The tokens of a list of words: the lower-cased words that are kept, in order.
pub open spec fn tokens(ws: Seq<Seq<char>>) -> Seq<Seq<char>>
    decreases ws.len(),
{
    if ws.len() == 0 {
        seq![]
    } else {
        let r = tokens(ws.drop_last());
        let lw = unicode_lowercase(ws.last());
        if token_ok(lw) {
            r.push(lw)
        } else {
            r
        }
    }
}

/// What `stop_words::lookup` returns for a language code: the crate's list of stop
/// words of that language, or nothing for a code it does not know.
pub uninterp spec fn stop_words_of(code: Seq<char>) -> Option<Seq<Seq<char>>>;

/// The English stop words (language code `en`); none when the list is not there.
pub open spec fn english_stop_words() -> Seq<Seq<char>> {
    match stop_words_of(seq!['e', 'n']) {
        Some(l) => l,
        None => seq![],
    }
}

/// The tokens that are no stop words, in order.
pub open spec fn without_stop_words(ts: Seq<Seq<char>>) -> Seq<Seq<char>> {
    ts.filter(|t: Seq<char>| !english_stop_words().contains(t))
}

/// What `rust_stemmers` returns for a word with the English (Porter 2) algorithm.
pub uninterp spec fn english_stem(w: Seq<char>) -> Seq<char>;

/// The stems of the tokens that have more than two bytes, in order.
pub open spec fn stems(ts: Seq<Seq<char>>) -> Seq<Seq<char>>
    decreases ts.len(),
{
    if ts.len() == 0 {
        seq![]
    } else {
        let r = stems(ts.drop_last());
        let st = english_stem(ts.last());
        if encode_utf8(st).len() as usize > 2 {
            r.push(st)
        } else {
            r
        }
    }
}

/// The first occurrence of each element, in order.
pub open spec fn dedup(s: Seq<Seq<char>>) -> Seq<Seq<char>>
    decreases s.len(),
{
    if s.len() == 0 {
        seq![]
    } else {
        let r = dedup(s.drop_last());
        if s.drop_last().contains(s.last()) {
            r
        } else {
            r.push(s.last())
        }
    }
}

/// The keywords of a plain text, in order: its words are lower-cased and kept when
/// longer than two bytes and alphanumeric; stop words are dropped; the rest are
/// stemmed, and stems of more than two bytes are kept.
pub open spec fn keywords_of(text: Seq<char>) -> Seq<Seq<char>> {
    stems(without_stop_words(tokens(words(text))))
}

pub proof fn lemma_push_contains(t: Seq<Seq<char>>, y: Seq<char>, x: Seq<char>)
    ensures
        t.push(y).contains(x) <==> (t.contains(x) || y == x),
{
    if t.push(y).contains(x) {
        let i = choose|i: int| 0 <= i < t.push(y).len() && t.push(y)[i] == x;
        if i < t.len() {
            assert(t[i] == x);
        }
    }
    if t.contains(x) {
        let i = choose|i: int| 0 <= i < t.len() && t[i] == x;
        assert(t.push(y)[i] == x);
    }
    if y == x {
        assert(t.push(y)[t.len() as int] == x);
    }
}

pub proof fn lemma_dedup_contains(s: Seq<Seq<char>>, x: Seq<char>)
    ensures
        dedup(s).contains(x) <==> s.contains(x),
    decreases s.len(),
{
    if s.len() > 0 {
        let t = s.drop_last();
        let y = s.last();
        lemma_dedup_contains(t, x);
        assert(s =~= t.push(y));
        lemma_push_contains(t, y, x);
        lemma_push_contains(dedup(t), y, x);
    }
}

/// Distinctness of the elements of a sequence.
pub open spec fn distinct_seqs(s: Seq<Seq<char>>) -> bool {
    forall|i: int, j: int| 0 <= i < s.len() && 0 <= j < s.len() && i != j ==> s[i] != s[j]
}

pub proof fn lemma_dedup_distinct(s: Seq<Seq<char>>)
    ensures
        distinct_seqs(dedup(s)),
    decreases s.len(),
{
    if s.len() > 0 {
        lemma_dedup_distinct(s.drop_last());
        lemma_dedup_contains(s.drop_last(), s.last());
        let r = dedup(s.drop_last());
        if !s.drop_last().contains(s.last()) {
            let t = r.push(s.last());
            assert forall|i: int, j: int| 0 <= i < t.len() && 0 <= j < t.len() && i != j implies t[i]
                != t[j] by {
                if i == r.len() {
                    assert(t[j] == r[j]);
                    if r[j] == s.last() {
                        assert(r.contains(s.last()));
                    }
                } else if j == r.len() {
                    assert(t[i] == r[i]);
                    if r[i] == s.last() {
                        assert(r.contains(s.last()));
                    }
                }
            }
        }
    }
}

pub open spec fn char_vecs_view(v: Seq<Vec<char>>) -> Seq<Seq<char>> {
    v.map_values(|x: Vec<char>| x@)
}

/// The words of a text.
pub fn split_words(text: &Vec<char>) -> (ws: Vec<Vec<char>>)
    ensures
        char_vecs_view(ws@) == words(text@),
{
    let mut out: Vec<Vec<char>> = Vec::new();
    let mut cur: Vec<char> = Vec::new();
    let n = text.len();
    let mut i: usize = 0;
    proof {
        assert(text@.take(0) =~= Seq::<char>::empty());
    }
    while i < n
        invariant
            n == text.len(),
            i <= n,
            char_vecs_view(out@) == nonempty_pieces(split_ws(text@.take(i as int)).drop_last()),
            cur@ == split_ws(text@.take(i as int)).last(),
            split_ws(text@.take(i as int)).len() >= 1,
        decreases n - i,
    {
        let ghost pre = text@.take(i as int);
        let ghost next = text@.take(i + 1);
        let ghost ps = split_ws(pre);
        assert(next.drop_last() =~= pre);
        assert(next.last() == text@[i as int]);
        let c = text[i];
        if is_whitespace(c) {
            assert(split_ws(next).drop_last() =~= ps);
            assert(ps.drop_last().push(cur@) =~= ps);
            if cur.len() > 0 {
                let ghost before = char_vecs_view(out@);
                out.push(cur);
                assert(char_vecs_view(out@) =~= before.push(ps.last()));
            }
            cur = Vec::new();
        } else {
            assert(split_ws(next).drop_last() =~= ps.drop_last());
            cur.push(c);
        }
        i = i + 1;
    }
    proof {
        assert(text@.take(n as int) =~= text@);
        let ps = split_ws(text@);
        assert(ps.drop_last().push(cur@) =~= ps);
    }
    if cur.len() > 0 {
        let ghost before = char_vecs_view(out@);
        out.push(cur);
        assert(char_vecs_view(out@) =~= before.push(split_ws(text@).last()));
    }
    out
}

/// Whether every character of the string is alphanumeric.
fn all_alphanumeric(s: &str) -> (r: bool)
    ensures
        r == (forall|i: int| 0 <= i < s@.len() ==> unicode_alphanumeric(#[trigger] s@[i])),
{
    let cs = chars_of(s);
    let mut i: usize = 0;
    while i < cs.len()
        invariant
            i <= cs.len(),
            cs@ == s@,
            forall|k: int| 0 <= k < i ==> unicode_alphanumeric(#[trigger] cs@[k]),
        decreases cs.len() - i,
    {
        if !is_alphanumeric(cs[i]) {
            return false;
        }
        i = i + 1;
    }
    true
}

/// Whether the list holds a string with these characters.
pub fn contains_string(v: &Vec<String>, s: &String) -> (r: bool)
    ensures
        r == v.deep_view().contains(s@),
{
    let mut i: usize = 0;
    while i < v.len()
        invariant
            i <= v.len(),
            forall|k: int| 0 <= k < i ==> v.deep_view()[k] != s@,
        decreases v.len() - i,
    {
        if v[i] == *s {
            assert(v.deep_view()[i as int] == s@);
            return true;
        }
        i = i + 1;
    }
    false
}

/// Trusted: calls `stop_words::lookup(code)` and copies each word into a `String`.
/// The contract names the list without stating its words.
#[verifier::external_body]
fn stop_word_list(code: &str) -> (r: Option<Vec<String>>)
    ensures
        r is None <==> stop_words_of(code@) is None,
        r matches Some(v) ==> stop_words_of(code@) == Some(v.deep_view()),
{
    match stop_words::lookup(code) {
        Some(ws) => Some(ws.iter().map(|w| w.to_string()).collect()),
        None => None,
    }
}

/// Trusted: calls `Stemmer::create(Algorithm::English).stem(w)` of `rust_stemmers`
/// and takes the result as a `String`. The contract names the stem without stating
/// the algorithm.
#[verifier::external_body]
fn stem_english(w: &str) -> (r: String)
    ensures
        r@ == english_stem(w@),
{
    rust_stemmers::Stemmer::create(rust_stemmers::Algorithm::English).stem(w).into_owned()
}

/// The English stop words, as a list.
pub fn english_stop_word_list() -> (r: Vec<String>)
    ensures
        r.deep_view() == english_stop_words(),
{
    let code = "en";
    proof {
        reveal_strlit("en");
        assert(code@ =~= seq!['e', 'n']);
    }
    match stop_word_list(code) {
        Some(v) => v,
        None => Vec::new(),
    }
}

/// The keywords of the words, in order (see `keywords_of`).
pub fn keywords_of_words(ws: &Vec<Vec<char>>) -> (kws: Vec<String>)
    ensures
        kws.deep_view() == stems(without_stop_words(tokens(char_vecs_view(ws@)))),
{
    let ghost wv = char_vecs_view(ws@);
    let ghost pred = |t: Seq<char>| !english_stop_words().contains(t);
    let stops = english_stop_word_list();
    let mut out: Vec<String> = Vec::new();
    let mut i: usize = 0;
    while i < ws.len()
        invariant
            i <= ws.len(),
            wv == char_vecs_view(ws@),
            stops.deep_view() == english_stop_words(),
            pred == (|t: Seq<char>| !english_stop_words().contains(t)),
            out.deep_view() == stems(tokens(wv.take(i as int)).filter(pred)),
        decreases ws.len() - i,
    {
        let ghost pre = wv.take(i as int);
        let ghost next = wv.take(i + 1);
        assert(next.drop_last() =~= pre);
        assert(next.last() == ws@[i as int]@);
        let word = string_from_chars(&ws[i]);
        let lw = to_lowercase(word.as_str());
        let blen = lw.as_str().len();
        let ok = blen > 2 && all_alphanumeric(lw.as_str());
        assert(ok == token_ok(lw@));
        if ok {
            let ghost ts = tokens(pre);
            assert(tokens(next) == ts.push(lw@));
            proof {
                ts.lemma_filter_push(lw@, pred);
            }
            if !contains_string(&stops, &lw) {
                let ghost fs = ts.filter(pred);
                assert(ts.push(lw@).filter(pred) == fs.push(lw@));
                assert(fs.push(lw@).drop_last() =~= fs);
                let st = stem_english(lw.as_str());
                if st.as_str().len() > 2 {
                    let ghost before = out.deep_view();
                    out.push(st);
                    assert(out.deep_view() =~= before.push(english_stem(lw@)));
                }
            }
        }
        i = i + 1;
    }
    assert(wv.take(ws.len() as int) =~= wv);
    out
}

/// The plain text of a Markdown document and its keywords.
pub fn extract_text_and_keywords(md_content: &str) -> (r: (String, Vec<String>))
    ensures
        r.0@ == plain_text(markdown_events(md_content@)),
        r.1.deep_view() == keywords_of(plain_text(markdown_events(md_content@))),
{
    let text = markdown_plain_text(md_content);
    let ws = split_words(&text);
    let kws = keywords_of_words(&ws);
    (string_from_chars(&text), kws)
}

// ----------------------------------------------------------------------------
// Wiki links and tags
// ----------------------------------------------------------------------------

/// Whether `c` is a word character in the sense of `\w` in the `regex` crate:
/// Unicode `Alphabetic`, `Join_Control`, `Decimal_Number`, `Mark` or
/// `Connector_Punctuation`.
pub uninterp spec fn unicode_word_char(c: char) -> bool;

pub open spec fn is_ascii_word_char(c: char) -> bool {
    let u = c as u32;
    (48 <= u <= 57) || (65 <= u <= 90) || (97 <= u <= 122) || u == 95
}

/// Trusted: calls `regex_syntax::is_word_character`, the class that `\w` matches
/// in the `regex` crate. For ASCII the crate documents the class as
/// `[_0-9a-zA-Z]`; for other characters only the property's name is stated. The
/// function panics only when the crate is built without its `unicode-perl` feature,
/// which is on by default.
#[verifier::external_body]
fn is_word_char(c: char) -> (r: bool)
    ensures
        r == unicode_word_char(c),
        (c as u32) < 128 ==> (r <==> is_ascii_word_char(c)),
{
    regex_syntax::is_word_character(c)
}

/// Where the `]]` that closes a wiki link opened before `q` starts: the first `]]`
/// at or after `q` with no line break before it.
pub open spec fn wiki_close(s: Seq<char>, q: int) -> Option<int>
    decreases s.len() - q,
{
    if q + 2 <= s.len() && s[q] == ']' && s[q + 1] == ']' {
        Some(q)
    } else if q < 0 || q >= s.len() || s[q] == '\n' {
        None
    } else {
        wiki_close(s, q + 1)
    }
}

/// The targets of the wiki links `[[Target]]` found from position `p` on: at the
/// first `[[` that is closed by a `]]` on the same line, the text between them
/// (the shortest), then the search goes on after the `]]`.
pub open spec fn wiki_links_from(s: Seq<char>, p: int) -> Seq<Seq<char>>
    decreases s.len() - p,
{
    if p < 0 || p + 2 > s.len() {
        seq![]
    } else if s[p] == '[' && s[p + 1] == '[' && wiki_close(s, p + 2) is Some {
        let q = wiki_close(s, p + 2)->0;
        if p + 2 <= q && q + 2 <= s.len() {
            seq![s.subrange(p + 2, q)] + wiki_links_from(s, q + 2)
        } else {
            seq![]
        }
    } else {
        wiki_links_from(s, p + 1)
    }
}

/// The targets of the wiki links of a text, as `\[\[(.*?)\]\]` captures them.
pub open spec fn wiki_links_of(s: Seq<char>) -> Seq<Seq<char>> {
    wiki_links_from(s, 0)
}

/// The end of the run of word characters that starts at `q`.
pub open spec fn word_run_end(s: Seq<char>, q: int) -> int
    decreases s.len() - q,
{
    if 0 <= q < s.len() && unicode_word_char(s[q]) {
        word_run_end(s, q + 1)
    } else {
        q
    }
}

/// The tags `#name` found from position `p` on: at each `#` followed by a word
/// character, the longest run of word characters after it; the search goes on
/// after the run.
pub open spec fn tags_from(s: Seq<char>, p: int) -> Seq<Seq<char>>
    decreases s.len() - p,
{
    if p < 0 || p >= s.len() {
        seq![]
    } else if s[p] == '#' && p + 1 < s.len() && unicode_word_char(s[p + 1]) {
        let e = word_run_end(s, p + 1);
        if p < e <= s.len() {
            seq![s.subrange(p + 1, e)] + tags_from(s, e)
        } else {
            seq![]
        }
    } else {
        tags_from(s, p + 1)
    }
}

/// The tags of a text, as `#(\w+)` captures them.
pub open spec fn tags_of(s: Seq<char>) -> Seq<Seq<char>> {
    tags_from(s, 0)
}

proof fn lemma_wiki_close_range(s: Seq<char>, q: int)
    ensures
        wiki_close(s, q) matches Some(c) ==> q <= c && c + 2 <= s.len(),
    decreases s.len() - q,
{
    if !(q + 2 <= s.len() && s[q] == ']' && s[q + 1] == ']') && !(q < 0 || q >= s.len() || s[q]
        == '\n') {
        lemma_wiki_close_range(s, q + 1);
    }
}

proof fn lemma_word_run_end_range(s: Seq<char>, q: int)
    requires
        0 <= q <= s.len(),
    ensures
        q <= word_run_end(s, q) <= s.len(),
    decreases s.len() - q,
{
    if 0 <= q < s.len() && unicode_word_char(s[q]) {
        lemma_word_run_end_range(s, q + 1);
    }
}

/// Where the wiki link opened before `q` is closed (see `wiki_close`).
fn find_wiki_close(s: &Vec<char>, q: usize) -> (r: Option<usize>)
    ensures
        match wiki_close(s@, q as int) {
            Some(c) => r == Some(c as usize),
            None => r is None,
        },
    decreases s.len() - q,
{
    let mut j = q;
    loop
        invariant
            q <= j,
            wiki_close(s@, q as int) == wiki_close(s@, j as int),
        decreases s.len() - j,
    {
        if j < s.len() && s.len() - j >= 2 && s[j] == ']' && s[j + 1] == ']' {
            return Some(j);
        }
        if j >= s.len() || s[j] == '\n' {
            return None;
        }
        j = j + 1;
    }
}

/// The targets of the wiki links of a text (see `wiki_links_of`).
pub fn extract_wiki_links(s: &Vec<char>) -> (r: Vec<String>)
    ensures
        r.deep_view() == wiki_links_of(s@),
{
    let mut out: Vec<String> = Vec::new();
    let mut p: usize = 0;
    while p < s.len() && s.len() - p >= 2
        invariant
            out.deep_view() + wiki_links_from(s@, p as int) == wiki_links_of(s@),
        decreases s.len() - p,
    {
        let mut found = false;
        if s[p] == '[' && s[p + 1] == '[' {
            match find_wiki_close(s, p + 2) {
                Some(q) => {
                    proof {
                        lemma_wiki_close_range(s@, p + 2);
                    }
                    let mut piece: Vec<char> = Vec::new();
                    let mut k = p + 2;
                    while k < q
                        invariant
                            p + 2 <= k <= q,
                            q + 2 <= s.len(),
                            piece@ == s@.subrange(p + 2, k as int),
                        decreases q - k,
                    {
                        piece.push(s[k]);
                        assert(piece@ =~= s@.subrange(p + 2, k + 1));
                        k = k + 1;
                    }
                    let ghost before = out.deep_view();
                    let t = string_from_chars(&piece);
                    out.push(t);
                    assert(out.deep_view() =~= before.push(s@.subrange(p + 2, q as int)));
                    assert(before + wiki_links_from(s@, p as int) =~= out.deep_view()
                        + wiki_links_from(s@, q + 2));
                    p = q + 2;
                    found = true;
                },
                None => {},
            }
        }
        if !found {
            p = p + 1;
        }
    }
    assert(wiki_links_from(s@, p as int) =~= Seq::<Seq<char>>::empty());
    assert(out.deep_view() =~= out.deep_view() + Seq::<Seq<char>>::empty());
    out
}

/// The tags of a text (see `tags_of`).
pub fn extract_tags(s: &Vec<char>) -> (r: Vec<String>)
    ensures
        r.deep_view() == tags_of(s@),
{
    let mut out: Vec<String> = Vec::new();
    let mut p: usize = 0;
    while p < s.len()
        invariant
            p <= s.len(),
            out.deep_view() + tags_from(s@, p as int) == tags_of(s@),
        decreases s.len() - p,
    {
        if s[p] == '#' && p + 1 < s.len() && is_word_char(s[p + 1]) {
            let mut piece: Vec<char> = Vec::new();
            let mut e = p + 1;
            proof {
                lemma_word_run_end_range(s@, p + 1);
            }
            while e < s.len() && is_word_char(s[e])
                invariant
                    p + 1 <= e <= s.len(),
                    word_run_end(s@, p + 1) == word_run_end(s@, e as int),
                    piece@ == s@.subrange(p + 1, e as int),
                decreases s.len() - e,
            {
                piece.push(s[e]);
                assert(piece@ =~= s@.subrange(p + 1, e + 1));
                e = e + 1;
            }
            let ghost before = out.deep_view();
            out.push(string_from_chars(&piece));
            assert(out.deep_view() =~= before.push(s@.subrange(p + 1, e as int)));
            assert(before + tags_from(s@, p as int) =~= out.deep_view() + tags_from(s@, e as int));
            p = e;
        } else {
            p = p + 1;
        }
    }
    assert(out.deep_view() =~= out.deep_view() + tags_from(s@, p as int));
    out
}

// ----------------------------------------------------------------------------
// Documents
// ----------------------------------------------------------------------------

/// What the Markdown document found `index`-th by a scan, at `rel_path`, with this
/// title and content, becomes: its address is the sequential `U32` index.
pub open spec fn doc_spec(index: u32, rel_path: Seq<char>, title: Seq<char>, content: Seq<char>) -> DocView {
    let text = plain_text(markdown_events(content));
    DocView {
        id: NodeIdView::U32(index),
        path: rel_path,
        title: title,
        content: content,
        text: text,
        wiki_links: wiki_links_of(content),
        tags: tags_of(content),
        keywords: keywords_of(text),
    }
}

/// The document found `index`-th by a scan, read from `rel_path` (relative to the
/// scanned directory), with the file's stem as title.
pub fn make_doc(index: u32, rel_path: &str, title: &str, content: &str) -> (d: Doc)
    ensures
        d@ == doc_spec(index, rel_path@, title@, content@),
        d.id@ == NodeIdView::U32(index),
        d.path@ == rel_path@,
        d.title@ == title@,
        d.content@ == content@,
        d.text@ == plain_text(markdown_events(content@)),
        d.keywords.deep_view() == keywords_of(d.text@),
        d.wiki_links.deep_view() == wiki_links_of(content@),
        d.tags.deep_view() == tags_of(content@),
{
    let id = NodeId::new_document(index);
    let (text, keywords) = extract_text_and_keywords(content);
    let cs = chars_of(content);
    let wiki_links = extract_wiki_links(&cs);
    let tags = extract_tags(&cs);
    Doc {
        id,
        path: String::from_str(rel_path),
        title: String::from_str(title),
        content: String::from_str(content),
        text,
        wiki_links,
        tags,
        keywords,
    }
}

} // verus!

verus! {

// ----------------------------------------------------------------------------
// Laws
// ----------------------------------------------------------------------------

/// The word list holds a word whose lower-cased form is a token, is no stop word,
/// and stems to `k`.
pub open spec fn stemmed_from(ws: Seq<Seq<char>>, k: Seq<char>) -> bool {
    exists|j: int|
        0 <= j < ws.len() && token_ok(unicode_lowercase(#[trigger] ws[j]))
            && !english_stop_words().contains(unicode_lowercase(ws[j])) && english_stem(
            unicode_lowercase(ws[j]),
        ) == k
}

proof fn lemma_tokens_kept(ws: Seq<Seq<char>>)
    ensures
        forall|i: int|
            0 <= i < tokens(ws).len() ==> exists|j: int|
                0 <= j < ws.len() && unicode_lowercase(#[trigger] ws[j]) == #[trigger] tokens(ws)[i]
                    && token_ok(tokens(ws)[i]),
    decreases ws.len(),
{
    if ws.len() > 0 {
        let p = ws.drop_last();
        lemma_tokens_kept(p);
        let r = tokens(p);
        assert forall|i: int| 0 <= i < tokens(ws).len() implies exists|j: int|
            0 <= j < ws.len() && unicode_lowercase(#[trigger] ws[j]) == #[trigger] tokens(ws)[i]
                && token_ok(tokens(ws)[i]) by {
            if i < r.len() {
                assert(tokens(ws)[i] == r[i]);
                let j = choose|j: int| 0 <= j < p.len() && unicode_lowercase(#[trigger] p[j]) == #[trigger] r[i] && token_ok(r[i]);
                assert(ws[j] == p[j]);
            } else {
                assert(ws[ws.len() - 1] == ws.last());
            }
        }
    }
}

proof fn lemma_stems_from(ts: Seq<Seq<char>>)
    ensures
        forall|i: int|
            0 <= i < stems(ts).len() ==> encode_utf8(#[trigger] stems(ts)[i]).len() as usize > 2 && exists|j: int|
                0 <= j < ts.len() && english_stem(#[trigger] ts[j]) == stems(ts)[i],
    decreases ts.len(),
{
    if ts.len() > 0 {
        let p = ts.drop_last();
        lemma_stems_from(p);
        let r = stems(p);
        assert forall|i: int| 0 <= i < stems(ts).len() implies encode_utf8(#[trigger] stems(ts)[i]).len() as usize
            > 2 && exists|j: int| 0 <= j < ts.len() && english_stem(#[trigger] ts[j]) == stems(ts)[i] by {
            if i < r.len() {
                assert(stems(ts)[i] == r[i]);
                let j = choose|j: int| 0 <= j < p.len() && english_stem(#[trigger] p[j]) == r[i];
                assert(ts[j] == p[j]);
            } else {
                assert(ts[ts.len() - 1] == ts.last());
            }
        }
    }
}

/// Every keyword of a text has more than two bytes and is the stem of one of its
/// words, lower-cased, that has more than two bytes, is alphanumeric throughout and
/// is no stop word.
pub proof fn lemma_keywords_are_stemmed_words(text: Seq<char>)
    ensures
        forall|i: int|
            0 <= i < keywords_of(text).len() ==> encode_utf8(#[trigger] keywords_of(text)[i]).len() as usize > 2
                && stemmed_from(words(text), keywords_of(text)[i]),
{
    let ws = words(text);
    let ts = tokens(ws);
    let fs = without_stop_words(ts);
    let pred = |t: Seq<char>| !english_stop_words().contains(t);
    lemma_tokens_kept(ws);
    lemma_stems_from(fs);
    assert forall|i: int| 0 <= i < keywords_of(text).len() implies encode_utf8(
        #[trigger] keywords_of(text)[i],
    ).len() as usize > 2 && stemmed_from(ws, keywords_of(text)[i]) by {
        let k = keywords_of(text)[i];
        assert(k == stems(fs)[i]);
        let j = choose|j: int| 0 <= j < fs.len() && english_stem(#[trigger] fs[j]) == k;
        let t = fs[j];
        assert(fs.contains(t));
        ts.lemma_filter_contains_rev(pred, t);
        assert(ts.contains(t));
        let m = choose|m: int| 0 <= m < ts.len() && ts[m] == t;
        let w = choose|w: int| 0 <= w < ws.len() && unicode_lowercase(#[trigger] ws[w]) == #[trigger] ts[m] && token_ok(ts[m]);
        assert(token_ok(unicode_lowercase(ws[w])) && !english_stop_words().contains(unicode_lowercase(ws[w]))
            && english_stem(unicode_lowercase(ws[w])) == k);
    }
}

/// A word is never empty and holds no whitespace.
pub proof fn lemma_words_are_runs(s: Seq<char>)
    ensures
        forall|i: int|
            0 <= i < words(s).len() ==> (#[trigger] words(s)[i]).len() > 0 && forall|k: int|
                0 <= k < words(s)[i].len() ==> !is_unicode_whitespace(words(s)[i][k]),
{
    lemma_split_ws_runs(s);
    lemma_nonempty_pieces(split_ws(s));
}

proof fn lemma_split_ws_runs(s: Seq<char>)
    ensures
        split_ws(s).len() >= 1,
        forall|i: int, k: int|
            0 <= i < split_ws(s).len() && 0 <= k < split_ws(s)[i].len() ==> !is_unicode_whitespace(
                #[trigger] split_ws(s)[i][k],
            ),
    decreases s.len(),
{
    if s.len() > 0 {
        lemma_split_ws_runs(s.drop_last());
        let r = split_ws(s.drop_last());
        if !is_unicode_whitespace(s.last()) {
            assert forall|i: int, k: int|
                0 <= i < split_ws(s).len() && 0 <= k < split_ws(s)[i].len() implies !is_unicode_whitespace(
                #[trigger] split_ws(s)[i][k],
            ) by {
                if i == r.len() - 1 {
                    if k < r.last().len() {
                        assert(split_ws(s)[i][k] == r[i][k]);
                    }
                } else {
                    assert(split_ws(s)[i] == r[i]);
                }
            }
        } else {
            assert forall|i: int, k: int|
                0 <= i < split_ws(s).len() && 0 <= k < split_ws(s)[i].len() implies !is_unicode_whitespace(
                #[trigger] split_ws(s)[i][k],
            ) by {
                if i < r.len() {
                    assert(split_ws(s)[i] == r[i]);
                }
            }
        }
    }
}

proof fn lemma_nonempty_pieces(ps: Seq<Seq<char>>)
    requires
        forall|i: int, k: int|
            0 <= i < ps.len() && 0 <= k < ps[i].len() ==> !is_unicode_whitespace(#[trigger] ps[i][k]),
    ensures
        forall|i: int|
            0 <= i < nonempty_pieces(ps).len() ==> (#[trigger] nonempty_pieces(ps)[i]).len() > 0
                && forall|k: int|
                0 <= k < nonempty_pieces(ps)[i].len() ==> !is_unicode_whitespace(
                    nonempty_pieces(ps)[i][k],
                ),
    decreases ps.len(),
{
    if ps.len() > 0 {
        let p = ps.drop_last();
        assert forall|i: int, k: int| 0 <= i < p.len() && 0 <= k < p[i].len() implies !is_unicode_whitespace(
            #[trigger] p[i][k],
        ) by {
            assert(p[i] == ps[i]);
        }
        lemma_nonempty_pieces(p);
        let r = nonempty_pieces(p);
        assert forall|i: int| 0 <= i < nonempty_pieces(ps).len() implies (
        #[trigger] nonempty_pieces(ps)[i]).len() > 0 && forall|k: int|
            0 <= k < nonempty_pieces(ps)[i].len() ==> !is_unicode_whitespace(
                nonempty_pieces(ps)[i][k],
            ) by {
            if i < r.len() {
                assert(nonempty_pieces(ps)[i] == r[i]);
            } else {
                assert(nonempty_pieces(ps)[i] == ps[ps.len() - 1]);
                let last_i = ps.len() - 1;
                assert forall|k: int| 0 <= k < ps[last_i].len() implies !is_unicode_whitespace(
                    #[trigger] ps[last_i][k],
                ) by {}
            }
        }
    }
}


/// The record of a scanned document keeps its content as it came and holds, apart
/// from it, the plain text of the content's Markdown parse (what
/// `extract_text_and_keywords` gives as text), the keywords of that plain text,
/// and the wiki links and tags of the content; its address is its scan index.
pub proof fn lemma_document_record(index: u32, path: Seq<char>, title: Seq<char>, content: Seq<char>)
    ensures
        doc_spec(index, path, title, content).id == NodeIdView::U32(index),
        doc_spec(index, path, title, content).path == path,
        doc_spec(index, path, title, content).title == title,
        doc_spec(index, path, title, content).content == content,
        doc_spec(index, path, title, content).text == plain_text(markdown_events(content)),
        doc_spec(index, path, title, content).keywords == keywords_of(plain_text(markdown_events(content))),
        doc_spec(index, path, title, content).wiki_links == wiki_links_of(content),
        doc_spec(index, path, title, content).tags == tags_of(content),
{
}

/// The text that an event carries (none for `Other`).
pub open spec fn event_text(e: MdEventView) -> Seq<char> {
    match e {
        MdEventView::Text(t) => t,
        MdEventView::Code(t) => t,
        MdEventView::Other => seq![],
    }
}

/// The plain text holds the text of every `Text` and `Code` event, each followed
/// by a space, and nothing when no event carries text.
pub proof fn lemma_plain_text_holds_event_text(es: Seq<MdEventView>)
    ensures
        forall|i: int|
            0 <= i < es.len() && !(#[trigger] es[i] is Other) ==> seq_contains_run(
                plain_text(es),
                event_text(es[i]) + seq![' '],
            ),
        (forall|i: int| 0 <= i < es.len() ==> #[trigger] es[i] is Other) ==> plain_text(es)
            == Seq::<char>::empty(),
    decreases es.len(),
{
    if es.len() > 0 {
        let p = es.drop_last();
        lemma_plain_text_holds_event_text(p);
        let r = plain_text(p);
        let whole = plain_text(es);
        assert forall|i: int|
            0 <= i < es.len() && !(#[trigger] es[i] is Other) implies seq_contains_run(
                whole,
                event_text(es[i]) + seq![' '],
            ) by {
            let needle = event_text(es[i]) + seq![' '];
            if i < p.len() {
                assert(p[i] == es[i]);
                let q = choose|q: int|
                    0 <= q && q + needle.len() <= r.len() && #[trigger] r.subrange(q, q + needle.len()) == needle;
                assert(whole.subrange(q, q + needle.len()) =~= r.subrange(q, q + needle.len()));
            } else {
                assert(es.last() == es[i]);
                assert(whole =~= r + needle);
                assert(whole.subrange(r.len() as int, (r.len() + needle.len()) as int) =~= needle);
            }
        }
        if forall|i: int| 0 <= i < es.len() ==> #[trigger] es[i] is Other {
            assert forall|i: int| 0 <= i < p.len() implies #[trigger] p[i] is Other by {
                assert(es[i] is Other);
            }
            assert(es[es.len() - 1] is Other);
        }
    }
}

} // verus!
