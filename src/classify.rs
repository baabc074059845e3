use vstd::prelude::*;
use crate::span::{TextSpan, select, indices_in};
use crate::util::{is_number, spec_is_number};

verus! {

/// What a collection of spans looks like.
#[derive(Clone, Copy, Debug, PartialEq, Eq, Structural)]
pub enum Class {
    Number,
    Header,
    Paragraph,
    Mixed,
}

/// Summary of boolean evidence. `Maybe(t, n)`: `t` of `n` samples were true.
#[derive(Clone, Copy, Debug, PartialEq, Eq, Structural)]
pub enum Tri {
    False,
    True,
    Maybe(usize, usize),
    Unknown,
}

/// Counts of true and false samples.
#[derive(Clone, Copy, Debug)]
pub struct TriCount {
    tru: usize,
    fal: usize,
}

pub open spec fn tri_of(tru: nat, fal: nat) -> Tri {
    if tru == 0 && fal == 0 {
        Tri::Unknown
    } else if fal == 0 {
        Tri::True
    } else if tru == 0 {
        Tri::False
    } else {
        Tri::Maybe(tru as usize, (tru + fal) as usize)
    }
}

impl TriCount {
    pub closed spec fn spec_tru(self) -> nat {
        self.tru as nat
    }

    pub closed spec fn spec_fal(self) -> nat {
        self.fal as nat
    }

    pub fn new() -> (r: Self)
        ensures
            r.spec_tru() == 0,
            r.spec_fal() == 0,
    {
        TriCount { tru: 0, fal: 0 }
    }

    pub fn add(&mut self, b: bool)
        requires
            b ==> old(self).spec_tru() < usize::MAX,
            !b ==> old(self).spec_fal() < usize::MAX,
        ensures
            final(self).spec_tru() == old(self).spec_tru() + if b { 1nat } else { 0nat },
            final(self).spec_fal() == old(self).spec_fal() + if b { 0nat } else { 1nat },
    {
        if b {
            self.tru = self.tru + 1;
        } else {
            self.fal = self.fal + 1;
        }
    }

    pub fn count(&self) -> (r: Tri)
        requires
            self.spec_tru() + self.spec_fal() <= usize::MAX,
        ensures
            r == tri_of(self.spec_tru(), self.spec_fal()),
    {
        if self.fal == 0 && self.tru == 0 {
            Tri::Unknown
        } else if self.fal == 0 {
            Tri::True
        } else if self.tru == 0 {
            Tri::False
        } else {
            Tri::Maybe(self.tru, self.tru + self.fal)
        }
    }
}

/// The name marks a bold face: it contains "Bold".
pub open spec fn is_bold_name(n: Seq<char>) -> bool {
    exists|i: int|
        0 <= i && i + 4 <= n.len() && #[trigger] n[i] == 'B' && n[i + 1] == 'o' && n[i + 2] == 'l'
            && n[i + 3] == 'd'
}

fn has_bold(n: &str) -> (r: bool)
    ensures
        r == is_bold_name(n@),
{
    let len = n.unicode_len();
    let mut i: usize = 0;
    while len >= 4 && i <= len - 4
        invariant
            len == n@.len(),
            forall|k: int|
                0 <= k < i && k + 4 <= len ==> !(#[trigger] n@[k] == 'B' && n@[k + 1] == 'o' && n@[k
                    + 2] == 'l' && n@[k + 3] == 'd'),
        decreases len - i,
    {
        if n.get_char(i) == 'B' && n.get_char(i + 1) == 'o' && n.get_char(i + 2) == 'l'
            && n.get_char(i + 3) == 'd' {
            return true;
        }
        i = i + 1;
    }
    false
}

/// Per span: does its text read as a number.
pub open spec fn numeric_count(s: Seq<TextSpan>) -> (nat, nat)
    decreases s.len(),
{
    if s.len() == 0 {
        (0, 0)
    } else {
        let (t, f) = numeric_count(s.drop_last());
        if spec_is_number(s.last().text@) {
            (t + 1, f)
        } else {
            (t, f + 1)
        }
    }
}

/// Per span with a font: is the font bold.
pub open spec fn bold_count(s: Seq<TextSpan>) -> (nat, nat)
    decreases s.len(),
{
    if s.len() == 0 {
        (0, 0)
    } else {
        let (t, f) = bold_count(s.drop_last());
        match s.last().font {
            Some(font) => if is_bold_name(font.name@) {
                (t + 1, f)
            } else {
                (t, f + 1)
            },
            None => (t, f),
        }
    }
}

/// The id of the first font among the spans.
pub open spec fn first_font(s: Seq<TextSpan>) -> Option<u64>
    decreases s.len(),
{
    if s.len() == 0 {
        None
    } else {
        match first_font(s.drop_last()) {
            Some(id) => Some(id),
            None => match s.last().font {
                Some(font) => Some(font.id),
                None => None,
            },
        }
    }
}

/// Per span with a font, after the first such: is it the first one's font.
pub open spec fn uniform_count(s: Seq<TextSpan>) -> (nat, nat)
    decreases s.len(),
{
    if s.len() == 0 {
        (0, 0)
    } else {
        let (t, f) = uniform_count(s.drop_last());
        match (s.last().font, first_font(s.drop_last())) {
            (Some(font), Some(id)) => if font.id == id {
                (t + 1, f)
            } else {
                (t, f + 1)
            },
            _ => (t, f),
        }
    }
}

pub open spec fn decide(numeric: Tri, bold: Tri, uniform: Tri) -> Class {
    match (numeric, bold, uniform) {
        (Tri::True, _, Tri::True) => Class::Number,
        (_, Tri::True, Tri::True) => Class::Header,
        (_, Tri::False, _) => Class::Paragraph,
        (_, Tri::Maybe(_, _), _) => Class::Paragraph,
        _ => Class::Mixed,
    }
}

/// The class of a sequence of spans; the uniformity evidence gets one extra
/// true sample, so that a lone span counts as uniform.
pub open spec fn class_of(s: Seq<TextSpan>) -> Class {
    let (nt, nf) = numeric_count(s);
    let (bt, bf) = bold_count(s);
    let (ut, uf) = uniform_count(s);
    decide(tri_of(nt, nf), tri_of(bt, bf), tri_of(ut + 1, uf))
}

proof fn lemma_counts_bounded(s: Seq<TextSpan>)
    ensures
        numeric_count(s).0 + numeric_count(s).1 == s.len(),
        bold_count(s).0 + bold_count(s).1 <= s.len(),
        uniform_count(s).0 + uniform_count(s).1 + (if first_font(s) is Some { 1int } else { 0int }) <= s.len(),
        first_font(s) is None ==> uniform_count(s).0 + uniform_count(s).1 == 0,
    decreases s.len(),
{
    if s.len() > 0 {
        lemma_counts_bounded(s.drop_last());
    }
}

/// Classifies the spans that `indices` picks, in that order.
pub fn classify(spans: &Vec<TextSpan>, indices: &Vec<usize>) -> (r: Class)
    requires
        indices_in(indices@, spans@.len()),
    ensures
        r == class_of(select(spans@, indices@)),
{
    let ghost sel = select(spans@, indices@);
    let mut bold = TriCount::new();
    let mut numeric = TriCount::new();
    let mut uniform = TriCount::new();
    let mut first: Option<u64> = None;
    let mut k: usize = 0;
    while k < indices.len()
        invariant
            k <= indices@.len(),
            sel == select(spans@, indices@),
            indices_in(indices@, spans@.len()),
            (numeric.spec_tru(), numeric.spec_fal()) == numeric_count(sel.subrange(0, k as int)),
            (bold.spec_tru(), bold.spec_fal()) == bold_count(sel.subrange(0, k as int)),
            (uniform.spec_tru(), uniform.spec_fal()) == uniform_count(sel.subrange(0, k as int)),
            first == first_font(sel.subrange(0, k as int)),
        decreases indices@.len() - k,
    {
        let s = &spans[indices[k]];
        proof {
            let pre = sel.subrange(0, k as int);
            let nxt = sel.subrange(0, k + 1);
            assert(nxt.drop_last() =~= pre);
            assert(nxt.last() == *s);
            lemma_counts_bounded(pre);
        }
        numeric.add(is_number(s.text.as_str()));
        match &s.font {
            Some(font) => {
                bold.add(has_bold(font.name.as_str()));
                match first {
                    None => {
                        first = Some(font.id);
                    },
                    Some(id) => {
                        uniform.add(font.id == id);
                    },
                }
            },
            None => {},
        }
        k = k + 1;
    }
    proof {
        assert(sel.subrange(0, indices@.len() as int) =~= sel);
        lemma_counts_bounded(sel);
    }
    uniform.add(true);
    match (numeric.count(), bold.count(), uniform.count()) {
        (Tri::True, _, Tri::True) => Class::Number,
        (_, Tri::True, Tri::True) => Class::Header,
        (_, Tri::False, _) => Class::Paragraph,
        (_, Tri::Maybe(_, _), _) => Class::Paragraph,
        _ => Class::Mixed,
    }
}

/// Adding a span in a bold font to spans that classify as a header never
/// makes them classify as a paragraph: the result stays a header or becomes
/// mixed.
pub proof fn lemma_bold_span_keeps_header(spans: Seq<TextSpan>, s: TextSpan)
    requires
        class_of(spans) == Class::Header,
        s.font is Some,
        is_bold_name(s.font->Some_0.name@),
    ensures
        class_of(spans.push(s)) == Class::Header || class_of(spans.push(s)) == Class::Mixed,
{
    assert(spans.push(s).drop_last() =~= spans);
}

} // verus!
