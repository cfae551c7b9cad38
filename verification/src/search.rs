//! Query matching and detail rendering for the prompt picker.

use vstd::prelude::*;

use crate::chars::chars_of;
use crate::chars::contains_chars;
use crate::chars::contains_seq;
use crate::chars::push_chars_of;
use crate::chars::string_of;
use crate::chars::trim;
use crate::chars::trim_chars;
use crate::prompt::Prompt;
use crate::prompt::PromptV;

verus! {

/// The Unicode lower-case image of a character sequence, as
/// `str::to_lowercase` computes it.
pub uninterp spec fn lower_of(s: Seq<char>) -> Seq<char>;

/// Relies on `str::to_lowercase`: the result is a function of the input
/// characters alone, and an empty input stays empty.
#[verifier::external_body]
fn lowercase(s: &str) -> (r: String)
    ensures
        r@ == lower_of(s@),
        s@.len() == 0 ==> r@.len() == 0,
{
    s.to_lowercase()
}

/// A prompt matches a normalized query when any of its searchable texts,
/// lower-cased, holds the query as a substring.
pub open spec fn matches_query(p: PromptV, q: Seq<char>) -> bool {
    ||| contains_seq(lower_of(p.id), q)
    ||| contains_seq(lower_of(p.title), q)
    ||| (p.description matches Some(d) && contains_seq(lower_of(d), q))
    ||| (p.category matches Some(c) && contains_seq(lower_of(c), q))
    ||| exists|i: int| 0 <= i < p.tags.len() && contains_seq(lower_of(#[trigger] p.tags[i]), q)
}

/// The normalized form of a raw query: trimmed, then lower-cased.
pub open spec fn normal_query(q: Seq<char>) -> Seq<char> {
    lower_of(trim(q))
}

/// The predicate a prompt must meet to stay in the filtered list.
pub open spec fn matcher(q: Seq<char>) -> spec_fn(PromptV) -> bool {
    |p: PromptV| matches_query(p, normal_query(q))
}

/// Whether one prompt matches the normalized query.
fn prompt_matches(p: &Prompt, q: &Vec<char>) -> (b: bool)
    ensures
        b == matches_query(p@, q@),
{
    let id_l = chars_of(lowercase(p.id.as_str()).as_str());
    if contains_chars(&id_l, q) {
        return true;
    }
    let title_l = chars_of(lowercase(p.title.as_str()).as_str());
    if contains_chars(&title_l, q) {
        return true;
    }
    match &p.description {
        Some(d) => {
            let d_l = chars_of(lowercase(d.as_str()).as_str());
            if contains_chars(&d_l, q) {
                return true;
            }
        },
        None => {},
    }
    match &p.category {
        Some(c) => {
            let c_l = chars_of(lowercase(c.as_str()).as_str());
            if contains_chars(&c_l, q) {
                return true;
            }
        },
        None => {},
    }
    let mut i: usize = 0;
    while i < p.tags.len()
        invariant
            i <= p.tags@.len(),
            forall|j: int| 0 <= j < i ==> !contains_seq(lower_of(#[trigger] p@.tags[j]), q@),
            !contains_seq(lower_of(p@.id), q@),
            !contains_seq(lower_of(p@.title), q@),
            !(p@.description matches Some(d) && contains_seq(lower_of(d), q@)),
            !(p@.category matches Some(c) && contains_seq(lower_of(c), q@)),
        decreases p.tags@.len() - i,
    {
        let t_l = chars_of(lowercase(p.tags[i].as_str()).as_str());
        proof {
            assert(p@.tags[i as int] == p.tags@[i as int]@);
        }
        if contains_chars(&t_l, q) {
            return true;
        }
        i = i + 1;
    }
    false
}

/// Filters the prompts down to those matching the query. A blank query
/// keeps everything; otherwise the query is trimmed and lower-cased, and a
/// prompt stays when any of `id`, `title`, `description`, `category` or a
/// tag, lower-cased, holds it as a substring.
pub fn filter_prompts(prompts: &Vec<Prompt>, query: &str) -> (r: Vec<Prompt>)
    ensures
        trim(query@).len() == 0 ==> r.deep_view() == prompts.deep_view(),
        trim(query@).len() != 0 ==> r.deep_view() == prompts.deep_view().filter(
            matcher(query@),
        ),
{
    let qv = chars_of(query);
    let qt = trim_chars(&qv);
    if qt.len() == 0 {
        let mut r: Vec<Prompt> = Vec::new();
        let mut i: usize = 0;
        while i < prompts.len()
            invariant
                i <= prompts@.len(),
                r@.len() == i,
                forall|j: int| 0 <= j < i ==> r@[j]@ == #[trigger] prompts@[j]@,
            decreases prompts@.len() - i,
        {
            r.push(prompts[i].duplicate());
            i = i + 1;
        }
        proof {
            assert(r.deep_view() =~= prompts.deep_view());
        }
        return r;
    }
    let qs = string_of(&qt);
    let qn = chars_of(lowercase(qs.as_str()).as_str());
    proof {
        assert(qn@ == normal_query(query@));
    }
    let mut r: Vec<Prompt> = Vec::new();
    let ghost ps = prompts.deep_view();
    let ghost f = matcher(query@);
    proof {
        reveal(Seq::<PromptV>::filter);
        assert(ps.take(0) =~= Seq::<PromptV>::empty());
        assert(Seq::<PromptV>::empty().filter(f) =~= Seq::<PromptV>::empty());
        assert(r.deep_view() =~= Seq::<PromptV>::empty());
    }
    let mut i: usize = 0;
    while i < prompts.len()
        invariant
            ps == prompts.deep_view(),
            f == matcher(query@),
            qn@ == normal_query(query@),
            i <= ps.len(),
            r.deep_view() == ps.take(i as int).filter(f),
        decreases ps.len() - i,
    {
        let keep = prompt_matches(&prompts[i], &qn);
        proof {
            reveal(Seq::<PromptV>::filter);
            assert(ps[i as int] == prompts@[i as int]@);
            assert(ps.take(i + 1).drop_last() =~= ps.take(i as int));
            assert(ps.take(i + 1).last() == ps[i as int]);
            assert(f(ps[i as int]) == keep);
        }
        if keep {
            let ghost rv0 = r.deep_view();
            r.push(prompts[i].duplicate());
            proof {
                assert(r.deep_view() =~= rv0.push(ps[i as int]));
                assert(ps.take(i + 1).filter(f) == ps.take(i as int).filter(f).push(
                    ps[i as int],
                ));
            }
        } else {
            proof {
                assert(ps.take(i + 1).filter(f) == ps.take(i as int).filter(f));
            }
        }
        i = i + 1;
    }
    proof {
        assert(ps.take(ps.len() as int) =~= ps);
    }
    r
}

/// The 72-dash rule under the header of a rendered detail block.
pub open spec fn rule_line() -> Seq<char> {
    Seq::new(72, |i: int| '-')
}

/// The joined tag list: tags separated by a comma and a space.
pub open spec fn joined_tags(ts: Seq<Seq<char>>) -> Seq<char>
    decreases ts.len(),
{
    if ts.len() == 0 {
        Seq::empty()
    } else if ts.len() == 1 {
        ts[0]
    } else {
        ts[0] + ", "@ + joined_tags(ts.drop_first())
    }
}

/// What the detail block of a prompt reads: title and id, description or a
/// stock phrase, category or `uncategorized`, the tags or `none`, a rule,
/// and the content.
pub open spec fn rendered_details(p: PromptV) -> Seq<char> {
    "\n"@ + p.title + " ("@ + p.id + ")\n"@ + (match p.description {
        Some(d) => d,
        None => "No description provided."@,
    }) + "\nCategory: "@ + (match p.category {
        Some(c) => c,
        None => "uncategorized"@,
    }) + "\nTags: "@ + (if p.tags.len() == 0 {
        "none"@
    } else {
        joined_tags(p.tags)
    }) + "\n"@ + rule_line() + "\n"@ + p.content + "\n"@
}

/// One more tag extends the joined list by a separator and the tag.
proof fn lemma_joined_tags_snoc(ts: Seq<Seq<char>>, x: Seq<char>)
    requires
        ts.len() >= 1,
    ensures
        joined_tags(ts.push(x)) == joined_tags(ts) + ", "@ + x,
    decreases ts.len(),
{
    if ts.len() == 1 {
        assert(ts.push(x)[0] == ts[0]);
        assert(ts.push(x).drop_first() =~= seq![x]);
        assert(joined_tags(seq![x]) == x);
    } else {
        assert(ts.push(x)[0] == ts[0]);
        assert(ts.push(x).drop_first() =~= ts.drop_first().push(x));
        lemma_joined_tags_snoc(ts.drop_first(), x);
        assert(ts[0] + ", "@ + (joined_tags(ts.drop_first()) + ", "@ + x) =~= (ts[0] + ", "@
            + joined_tags(ts.drop_first())) + ", "@ + x);
    }
}

/// Renders the detail block shown when a prompt is picked.
#[verifier::rlimit(100)]
#[verifier::spinoff_prover]
pub fn render_prompt_details(p: &Prompt) -> (r: String)
    ensures
        r@ == rendered_details(p@),
{
    let mut out: Vec<char> = Vec::new();
    push_chars_of(&mut out, "\n");
    push_chars_of(&mut out, p.title.as_str());
    push_chars_of(&mut out, " (");
    push_chars_of(&mut out, p.id.as_str());
    push_chars_of(&mut out, ")\n");
    match &p.description {
        Some(d) => push_chars_of(&mut out, d.as_str()),
        None => push_chars_of(&mut out, "No description provided."),
    }
    push_chars_of(&mut out, "\nCategory: ");
    match &p.category {
        Some(c) => push_chars_of(&mut out, c.as_str()),
        None => push_chars_of(&mut out, "uncategorized"),
    }
    push_chars_of(&mut out, "\nTags: ");
    if p.tags.len() == 0 {
        push_chars_of(&mut out, "none");
    } else {
        let ghost ts = p.tags.deep_view();
        let ghost base0 = out@;
        push_chars_of(&mut out, p.tags[0].as_str());
        proof {
            assert(ts[0] == p.tags@[0]@);
            assert(ts.take(1)[0] == ts[0]);
            assert(joined_tags(ts.take(1)) == ts[0]);
            assert(out@ =~= base0 + joined_tags(ts.take(1)));
        }
        let mut i: usize = 1;
        while i < p.tags.len()
            invariant
                ts == p.tags.deep_view(),
                1 <= i <= ts.len(),
                out@ == base0 + joined_tags(ts.take(i as int)),
            decreases ts.len() - i,
        {
            push_chars_of(&mut out, ", ");
            push_chars_of(&mut out, p.tags[i].as_str());
            proof {
                assert(ts[i as int] == p.tags@[i as int]@);
                assert(ts.take(i + 1) =~= ts.take(i as int).push(ts[i as int]));
                assert(ts.take(i as int).len() >= 1);
                lemma_joined_tags_snoc(ts.take(i as int), ts[i as int]);
                assert(base0 + joined_tags(ts.take(i as int)) + ", "@ + ts[i as int] =~= base0
                    + (joined_tags(ts.take(i as int)) + ", "@ + ts[i as int]));
            }
            i = i + 1;
        }
        proof {
            assert(ts.take(ts.len() as int) =~= ts);
        }
    }
    push_chars_of(&mut out, "\n");
    let ghost base2 = out@;
    proof {
        assert(Seq::new(0nat, |x: int| '-') =~= Seq::<char>::empty());
        assert(out@ =~= base2 + Seq::new(0nat, |x: int| '-'));
    }
    let mut d: usize = 0;
    while d < 72
        invariant
            d <= 72,
            out@ == base2 + Seq::new(d as nat, |x: int| '-'),
        decreases 72 - d,
    {
        out.push('-');
        d = d + 1;
        proof {
            assert(out@ =~= base2 + Seq::new(d as nat, |x: int| '-'));
        }
    }
    proof {
        assert(Seq::new(72nat, |x: int| '-') =~= rule_line());
    }
    push_chars_of(&mut out, "\n");
    push_chars_of(&mut out, p.content.as_str());
    push_chars_of(&mut out, "\n");
    proof {
        assert(out@ =~= rendered_details(p@));
    }
    string_of(&out)
}

} // verus!
