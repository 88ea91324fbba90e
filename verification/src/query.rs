//! The query that asks for work events on a host.

use vstd::prelude::*;
use vstd::string::*;
use crate::text::{
    begins, chars_of, is_white_space, law_replaced_first, law_replaced_nothing, law_trim_end,
    law_trim_end_of, replace_text, replaced, text_of, trim_end, trim_end_of, white_space,
};

verus! {

/// A category of windows.
#[derive(Debug)]
pub struct Category {
    pub name: Vec<String>,
    pub spec_type: String,
    pub regex: String,
    pub ignore_case: bool,
}

/// What a desktop query is made of.
#[derive(Debug)]
pub struct DesktopQuery {
    pub bid_browsers: Vec<String>,
    pub classes: Vec<Category>,
    pub filter_classes: Vec<Vec<String>>,
    pub filter_afk: bool,
    pub include_audible: bool,
    pub bid_window: String,
    pub bid_afk: String,
    pub always_active_pattern: Option<String>,
}

/// The query for windows of `hostname` that match `regex`, whatever the case: one category, named
/// `Work`, and only what falls in it while the user is there.
pub fn desktop_query(hostname: &str, regex: &str) -> (r: DesktopQuery)
    ensures
        r.bid_browsers.len() == 0,
        r.classes.len() == 1,
        r.classes[0].name.deep_view() == seq!["Work"@],
        r.classes[0].spec_type@ == "regex"@,
        r.classes[0].regex@ == regex@,
        r.classes[0].ignore_case,
        r.filter_classes.deep_view() == seq![seq!["Work"@]],
        r.filter_afk,
        !r.include_audible,
        r.bid_window@ == "aw-watcher-window_"@ + hostname@,
        r.bid_afk@ == "aw-watcher-afk_"@ + hostname@,
        r.always_active_pattern is None,
{
    let mut name: Vec<String> = Vec::new();
    name.push("Work".to_owned());
    let mut wanted: Vec<String> = Vec::new();
    wanted.push("Work".to_owned());
    assert(name.deep_view() =~= seq!["Work"@]);
    assert(wanted.deep_view() =~= seq!["Work"@]);
    let mut classes: Vec<Category> = Vec::new();
    classes.push(
        Category { name, spec_type: "regex".to_owned(), regex: regex.to_owned(), ignore_case: true },
    );
    let mut filter_classes: Vec<Vec<String>> = Vec::new();
    filter_classes.push(wanted);
    assert(filter_classes.deep_view() =~= seq![seq!["Work"@]]);
    DesktopQuery {
        bid_browsers: Vec::new(),
        classes,
        filter_classes,
        filter_afk: true,
        include_audible: false,
        bid_window: "aw-watcher-window_".to_owned().concat(hostname),
        bid_afk: "aw-watcher-afk_".to_owned().concat(hostname),
        always_active_pattern: None,
    }
}

/// The canonical events part of a query: of two semicolons at the end of a line one goes, and so do
/// the semicolons and the white space at its end.
pub open spec fn tidied(canonical: Seq<char>) -> Seq<char> {
    trim_end(trim_end_of(replaced(canonical, ";;\n"@, ";\n"@), ';'))
}

/// The whole query: the canonical events part, and the answer that is wanted.
pub fn build_query(canonical: &str) -> (r: String)
    ensures
        r@ == tidied(canonical@)
            + ";\nduration = sum_durations(events);\nRETURN = {\"events\": events, \"duration\": duration};"@,
{
    proof {
        reveal_strlit(";;\n");
    }
    let single: String = replace_text(canonical, ";;\n", ";\n");
    let v: Vec<char> = chars_of(single.as_str());
    let mut to: usize = v.len();
    assert(v@.take(to as int) =~= v@);
    while to > 0 && v[to - 1] == ';'
        invariant
            to <= v.len(),
            trim_end_of(v@.take(to as int), ';') == trim_end_of(v@, ';'),
        decreases to,
    {
        assert(v@.take(to as int).drop_last() =~= v@.take(to - 1));
        to -= 1;
    }
    let ghost bare = v@.take(to as int);
    while to > 0 && is_white_space(v[to - 1])
        invariant
            to <= v.len(),
            trim_end(v@.take(to as int)) == trim_end(bare),
        decreases to,
    {
        assert(v@.take(to as int).drop_last() =~= v@.take(to - 1));
        to -= 1;
    }
    assert(v@.subrange(0, to as int) =~= v@.take(to as int));
    let mut query: String = text_of(&v, 0, to);
    query.append(
        ";\nduration = sum_durations(events);\nRETURN = {\"events\": events, \"duration\": duration};",
    );
    query
}

proof fn lemma_replaced_split(x: Seq<char>, y: Seq<char>, pat: Seq<char>, to: Seq<char>)
    requires
        pat.len() > 0,
        forall|p: int|
            0 <= p < x.len() < p + pat.len() ==> !begins(#[trigger] (x + y).skip(p), pat),
    ensures
        replaced(x + y, pat, to) == replaced(x, pat, to) + replaced(y, pat, to),
    decreases x.len(),
{
    let s = x + y;
    let n = pat.len() as int;
    if x.len() == 0 {
        assert(s =~= y);
        assert(replaced(x, pat, to) + replaced(y, pat, to) =~= replaced(y, pat, to));
    } else {
        assert(s.skip(0) =~= s);
        if begins(s, pat) {
            assert(!(0 <= 0 < x.len() < 0 + n) || !begins(s.skip(0), pat));
            assert(x.take(n) =~= s.take(n));
            let rest = x.skip(n);
            assert(s.skip(n) =~= rest + y);
            assert forall|p: int| 0 <= p < rest.len() < p + n implies !begins(
                #[trigger] (rest + y).skip(p),
                pat,
            ) by {
                assert((rest + y).skip(p) =~= s.skip(p + n));
            }
            lemma_replaced_split(rest, y, pat, to);
            assert(to + (replaced(rest, pat, to) + replaced(y, pat, to)) =~= (to + replaced(
                rest,
                pat,
                to,
            )) + replaced(y, pat, to));
        } else {
            if begins(x, pat) {
                assert(s.take(n) =~= x.take(n));
            }
            let rest = x.drop_first();
            assert(s.drop_first() =~= rest + y);
            assert forall|p: int| 0 <= p < rest.len() < p + n implies !begins(
                #[trigger] (rest + y).skip(p),
                pat,
            ) by {
                assert((rest + y).skip(p) =~= s.skip(p + 1));
            }
            lemma_replaced_split(rest, y, pat, to);
            assert(seq![x[0]] + (replaced(rest, pat, to) + replaced(y, pat, to)) =~= (seq![x[0]]
                + replaced(rest, pat, to)) + replaced(y, pat, to));
        }
    }
}

proof fn lemma_replaced_absent(s: Seq<char>, pat: Seq<char>, to: Seq<char>)
    requires
        pat.len() > 0,
        !s.contains(pat.last()),
    ensures
        replaced(s, pat, to) == s,
    decreases s.len(),
{
    if s.len() > 0 {
        if begins(s, pat) {
            assert(s.take(pat.len() as int)[pat.len() - 1] == s[pat.len() - 1]);
        }
        let rest = s.drop_first();
        assert forall|i: int| 0 <= i < rest.len() implies rest[i] != pat.last() by {
            assert(s.contains(s[i + 1]));
        }
        lemma_replaced_absent(rest, pat, to);
        assert(seq![s[0]] + rest =~= s);
    }
}

proof fn lemma_trim_keeps_front(a: Seq<char>, b: Seq<char>)
    requires
        b.len() > 0,
        b[0] == '"',
    ensures
        trim_end_of(a + b, ';') == a + trim_end_of(b, ';'),
        trim_end(a + b) == a + trim_end(b),
        trim_end_of(b, ';').len() > 0,
        trim_end_of(b, ';')[0] == '"',
    decreases b.len(),
{
    let s = a + b;
    assert(s.last() == b.last());
    if b.len() > 1 {
        assert(s.drop_last() =~= a + b.drop_last());
        lemma_trim_keeps_front(a, b.drop_last());
    }
}

/// A text on one line, with a quotation mark behind it, stands in the query as it is, semicolons and
/// all. So does a regex.
pub proof fn law_quoted_text_kept(before: Seq<char>, text: Seq<char>, behind: Seq<char>)
    requires
        !text.contains('\n'),
        behind.len() > 0,
        behind[0] == '"',
    ensures
        tidied(before + text + behind) == replaced(before, ";;\n"@, ";\n"@) + text + tidied(behind),
{
    reveal_strlit(";;\n");
    let (pat, to) = (";;\n"@, ";\n"@);
    let x = before + text;
    let s = x + behind;
    assert forall|p: int| 0 <= p < x.len() < p + pat.len() implies !begins(
        #[trigger] s.skip(p),
        pat,
    ) by {
        let i = x.len() - p;
        assert(s.skip(p)[i] == '"');
        if begins(s.skip(p), pat) {
            assert(s.skip(p).take(3)[i] == pat[i]);
        }
    }
    lemma_replaced_split(x, behind, pat, to);
    assert forall|p: int| 0 <= p < before.len() < p + pat.len() implies !begins(
        #[trigger] x.skip(p),
        pat,
    ) by {
        if begins(x.skip(p), pat) {
            assert(x.skip(p).take(3)[2] == pat[2]);
            assert(x[p + 2] == '\n');
            assert(text[p + 2 - before.len()] == '\n');
        }
    }
    lemma_replaced_split(before, text, pat, to);
    lemma_replaced_absent(text, pat, to);
    assert(replaced(s, pat, to) == replaced(before, pat, to) + text + replaced(behind, pat, to));
    let front = replaced(before, pat, to) + text;
    let back = replaced(behind, pat, to);
    assert(back[0] == '"') by {
        if begins(behind, pat) {
            assert(behind.take(3)[0] == pat[0]);
        }
    }
    lemma_trim_keeps_front(front, back);
    lemma_trim_keeps_front(front, trim_end_of(back, ';'));
}

/// What ends in neither a semicolon nor white space, and has no two semicolons at the end of a line,
/// stands in the query as it is, and so it does with any number of semicolons behind it: the one that
/// follows is the only one.
pub proof fn law_one_semicolon(body: Seq<char>, semicolons: Seq<char>)
    requires
        body.len() > 0,
        body.last() != ';',
        !white_space(body.last()),
        forall|p: int| 0 <= p <= body.len() - 3 ==> #[trigger] body.subrange(p, p + 3) != ";;\n"@,
        forall|i: int| 0 <= i < semicolons.len() ==> #[trigger] semicolons[i] == ';',
    ensures
        tidied(body + semicolons) == body,
{
    reveal_strlit(";;\n");
    let s = body + semicolons;
    let n = body.len() as int;
    assert forall|p: int| 0 <= p <= s.len() - 3 implies #[trigger] s.subrange(p, p + 3)
        != ";;\n"@ by {
        if p + 3 <= n {
            assert(s.subrange(p, p + 3) =~= body.subrange(p, p + 3));
        } else {
            assert(s.subrange(p, p + 3)[2] == semicolons[p + 2 - n]);
        }
    }
    law_replaced_nothing(s, ";;\n"@, ";\n"@);
    law_trim_end_of(s, ';');
    let t = trim_end_of(s, ';');
    if t.len() > n {
        assert(t.last() == s[t.len() - 1]);
        assert(s[t.len() - 1] == semicolons[t.len() - 1 - n]);
    }
    if t.len() < n {
        assert(s[n - 1] == body.last());
    }
    assert(t =~= body);
    law_trim_end(t);
    assert(trim_end(t).len() < n ==> white_space(t[n - 1]));
    assert(trim_end(t) =~= body);
}

proof fn lemma_replaced_last(s: Seq<char>, pat: Seq<char>, to: Seq<char>)
    requires
        s.len() > 0,
        pat.len() > 0,
        s.last() != pat.last(),
    ensures
        replaced(s, pat, to).len() > 0,
        replaced(s, pat, to).last() == s.last(),
    decreases s.len(),
{
    let n = pat.len() as int;
    if begins(s, pat) {
        assert(s.take(n)[n - 1] == pat[n - 1]);
        let rest = s.skip(n);
        assert(rest.len() > 0);
        assert(rest.last() == s.last());
        lemma_replaced_last(rest, pat, to);
    } else {
        let rest = s.drop_first();
        if rest.len() > 0 {
            assert(rest.last() == s.last());
            lemma_replaced_last(rest, pat, to);
        } else {
            assert(replaced(rest, pat, to) =~= Seq::<char>::empty());
        }
    }
}

/// Of two semicolons at the end of a line, the first such line of a query, one goes and one stays, and
/// what stands ahead of them stays as it is.
pub proof fn law_double_semicolon(before: Seq<char>, behind: Seq<char>)
    requires
        forall|p: int|
            0 <= p < before.len() ==> #[trigger] (before + ";;\n"@ + behind).subrange(p, p + 3)
                != ";;\n"@,
        behind.len() > 0,
        behind.last() != ';',
        !white_space(behind.last()),
    ensures
        tidied(before + ";;\n"@ + behind) == before + ";\n"@ + tidied(behind),
        tidied(behind) == replaced(behind, ";;\n"@, ";\n"@),
{
    reveal_strlit(";;\n");
    reveal_strlit(";\n");
    let (pat, to) = (";;\n"@, ";\n"@);
    assert(pat.last() == '\n' && white_space('\n'));
    law_replaced_first(before, behind, pat, to);
    lemma_replaced_last(behind, pat, to);
    let back = replaced(behind, pat, to);
    let whole = before + to + back;
    assert(whole.last() == back.last());
    assert(trim_end_of(back, ';') == back);
    assert(trim_end(back) == back);
    assert(trim_end_of(whole, ';') == whole);
    assert(trim_end(whole) == whole);
}

} // verus!
