//! The API documentation page: its HTML gains the dark style sheet of the
//! log.
use vstd::prelude::*;

use crate::text::{chars_of, string_of_range};

verus! {

/// `pat` stands in `text` at `i`.
pub open spec fn occurs_at(text: Seq<char>, pat: Seq<char>, i: int) -> bool {
    0 <= i && i + pat.len() <= text.len() && text.subrange(i, i + pat.len()) == pat
}

/// `pat` stands somewhere in `text`.
pub open spec fn text_has(text: Seq<char>, pat: Seq<char>) -> bool {
    exists|i: int| occurs_at(text, pat, i)
}

/// `text` with each occurrence of `from` replaced by `to`, left to right,
/// occurrences not overlapping (an empty `from` leaves the text as it is).
pub open spec fn replace_all(text: Seq<char>, from: Seq<char>, to: Seq<char>) -> Seq<char>
    decreases text.len(),
{
    if from.len() == 0 || text.len() < from.len() {
        text
    } else if text.take(from.len() as int) == from {
        to + replace_all(text.skip(from.len() as int), from, to)
    } else {
        seq![text[0]] + replace_all(text.drop_first(), from, to)
    }
}

/// Whether `pat` stands in `text` at `i`.
fn matches_at(text: &Vec<char>, pat: &Vec<char>, i: usize) -> (b: bool)
    requires
        i + pat.len() <= text.len(),
    ensures
        b == occurs_at(text@, pat@, i as int),
{
    let mut j: usize = 0;
    while j < pat.len()
        invariant
            i + pat.len() <= text.len(),
            j <= pat.len(),
            forall|k: int| 0 <= k < j ==> text@[i + k] == pat@[k],
        decreases pat.len() - j,
    {
        if text[i + j] != pat[j] {
            assert(text@.subrange(i as int, i + pat.len())[j as int] != pat@[j as int]);
            return false;
        }
        j += 1;
    }
    assert(text@.subrange(i as int, i + pat.len()) == pat@);
    true
}

/// Whether `pat` stands somewhere in `text`.
pub fn has_text(text: &Vec<char>, pat: &Vec<char>) -> (b: bool)
    ensures
        b == text_has(text@, pat@),
{
    if pat.len() > text.len() {
        return false;
    }
    let last = text.len() - pat.len();
    let mut i: usize = 0;
    while i < last
        invariant
            last == text.len() - pat.len(),
            pat.len() <= text.len(),
            i <= last,
            forall|k: int| 0 <= k < i ==> !occurs_at(text@, pat@, k),
        decreases last - i,
    {
        if matches_at(text, pat, i) {
            return true;
        }
        i += 1;
    }
    matches_at(text, pat, last)
}

/// `text` with each occurrence of `from` replaced by `to`.
pub fn replace_text(text: &Vec<char>, from: &Vec<char>, to: &Vec<char>) -> (r: Vec<char>)
    ensures
        r@ == replace_all(text@, from@, to@),
{
    let mut out: Vec<char> = Vec::new();
    let mut i: usize = 0;
    assert(text@.skip(0) == text@);
    while i < text.len()
        invariant
            i <= text.len(),
            out@ + replace_all(text@.skip(i as int), from@, to@) == replace_all(
                text@,
                from@,
                to@,
            ),
        decreases text.len() - i,
    {
        let ghost rest = text@.skip(i as int);
        if from.len() == 0 || text.len() - i < from.len() {
            assert(replace_all(rest, from@, to@) == rest);
            assert(replace_all(text@.skip(i + 1), from@, to@) == text@.skip(i + 1));
            assert(rest == seq![text@[i as int]] + text@.skip(i + 1));
            let ghost before = out@;
            out.push(text[i]);
            assert(before + (seq![text@[i as int]] + text@.skip(i + 1)) == out@ + text@.skip(
                i + 1,
            ));
            i += 1;
            continue;
        }
        if matches_at(text, from, i) {
            assert(rest.take(from.len() as int) == text@.subrange(i as int, i + from.len()));
            assert(rest.skip(from.len() as int) == text@.skip(i + from.len()));
            let mut j: usize = 0;
            let ghost before = out@;
            while j < to.len()
                invariant
                    j <= to.len(),
                    out@ == before + to@.take(j as int),
                decreases to.len() - j,
            {
                out.push(to[j]);
                assert(to@.take(j + 1) == to@.take(j as int).push(to@[j as int]));
                j += 1;
            }
            assert(to@.take(to.len() as int) == to@);
            assert(before + (to@ + replace_all(text@.skip(i + from.len()), from@, to@)) == out@
                + replace_all(text@.skip(i + from.len()), from@, to@));
            i += from.len();
        } else {
            assert(rest.take(from.len() as int) != from@) by {
                assert(rest.take(from.len() as int) == text@.subrange(i as int, i + from.len()));
            }
            assert(rest.drop_first() == text@.skip(i + 1));
            let ghost before = out@;
            out.push(text[i]);
            assert(before + (seq![text@[i as int]] + replace_all(text@.skip(i + 1), from@, to@))
                == out@ + replace_all(text@.skip(i + 1), from@, to@));
            i += 1;
        }
    }
    assert(text@.skip(text.len() as int).len() == 0);
    assert(out@ + text@.skip(text.len() as int) == out@);
    out
}

/// A text without `from` comes out of the replacement as it went in.
pub proof fn lemma_replace_absent(text: Seq<char>, from: Seq<char>, to: Seq<char>)
    requires
        !text_has(text, from),
    ensures
        replace_all(text, from, to) == text,
    decreases text.len(),
{
    if from.len() > 0 && text.len() >= from.len() {
        assert(text.take(from.len() as int) != from) by {
            if text.take(from.len() as int) == from {
                assert(text.subrange(0, from.len() as int) == text.take(from.len() as int));
                assert(occurs_at(text, from, 0));
            }
        }
        let rest = text.drop_first();
        assert(!text_has(rest, from)) by {
            if text_has(rest, from) {
                let i = choose|i: int| occurs_at(rest, from, i);
                assert(text.subrange(i + 1, i + 1 + from.len()) == rest.subrange(i, i + from.len()));
                assert(occurs_at(text, from, i + 1));
            }
        }
        lemma_replace_absent(rest, from, to);
        assert(text == seq![text[0]] + rest);
    }
}

/// Where `from` occurs, what takes its place occurs in the result, and with
/// it whatever `to` holds.
pub proof fn lemma_replace_present(text: Seq<char>, from: Seq<char>, to: Seq<char>, pat: Seq<char>)
    requires
        from.len() > 0,
        text_has(text, from),
        text_has(to, pat),
    ensures
        text_has(replace_all(text, from, to), pat),
    decreases text.len(),
{
    let i = choose|i: int| occurs_at(text, from, i);
    let j = choose|j: int| occurs_at(to, pat, j);
    assert(text.len() >= from.len());
    if text.take(from.len() as int) == from {
        let out = to + replace_all(text.skip(from.len() as int), from, to);
        assert(out.subrange(j, j + pat.len()) == to.subrange(j, j + pat.len()));
        assert(occurs_at(out, pat, j));
    } else {
        assert(i != 0) by {
            if i == 0 {
                assert(text.subrange(0, from.len() as int) == text.take(from.len() as int));
            }
        }
        let rest = text.drop_first();
        assert(rest.subrange(i - 1, i - 1 + from.len()) == text.subrange(i, i + from.len()));
        assert(occurs_at(rest, from, i - 1));
        lemma_replace_present(rest, from, to, pat);
        let inner = replace_all(rest, from, to);
        let k = choose|k: int| occurs_at(inner, pat, k);
        let out = seq![text[0]] + inner;
        assert(out.subrange(k + 1, k + 1 + pat.len()) == inner.subrange(k, k + pat.len()));
        assert(occurs_at(out, pat, k + 1));
    }
}

/// What takes the place of `</head>`: the link to the dark style sheet,
/// then `</head>`.
pub open spec fn dark_head_end() -> Seq<char> {
    "<link rel=\"stylesheet\" href=\"/api/docs/dark.css\" /></head>"@
}

/// Whether a response's content type is HTML.
pub fn is_html(content_type: &str) -> (b: bool)
    ensures
        b == text_has(content_type@, "text/html"@),
{
    has_text(&chars_of(content_type), &chars_of("text/html"))
}

/// The documentation page with the dark style sheet: a page that already
/// names `dark.css` is left as it is; otherwise the link goes before each
/// `</head>`.
pub open spec fn dark_page(html: Seq<char>) -> Seq<char> {
    if text_has(html, "dark.css"@) {
        html
    } else {
        replace_all(html, "</head>"@, dark_head_end())
    }
}

/// The documentation page with the dark style sheet.
pub fn with_dark_theme(html: &str) -> (page: String)
    ensures
        page@ == dark_page(html@),
{
    let text = chars_of(html);
    if has_text(&text, &chars_of("dark.css")) {
        return string_of_range(&text, 0, text.len());
    }
    let out = replace_text(
        &text,
        &chars_of("</head>"),
        &chars_of("<link rel=\"stylesheet\" href=\"/api/docs/dark.css\" /></head>"),
    );
    let page = string_of_range(&out, 0, out.len());
    assert(out@.subrange(0, out@.len() as int) == out@);
    page
}

/// The dark page is made once: making it again from its own result gives
/// the same page, so the link to the style sheet is added at most once.
pub proof fn lemma_dark_page_idempotent(html: Seq<char>)
    ensures
        dark_page(dark_page(html)) == dark_page(html),
{
    reveal_strlit("dark.css");
    reveal_strlit("</head>");
    reveal_strlit("<link rel=\"stylesheet\" href=\"/api/docs/dark.css\" /></head>");
    if !text_has(html, "dark.css"@) {
        let from = "</head>"@;
        let to = dark_head_end();
        assert(to.subrange(39, 47) =~= "dark.css"@);
        assert(occurs_at(to, "dark.css"@, 39));
        if text_has(html, from) {
            lemma_replace_present(html, from, to, "dark.css"@);
        } else {
            lemma_replace_absent(html, from, to);
        }
    }
}

} // verus!
