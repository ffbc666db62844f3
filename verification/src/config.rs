//! Scan and normalization configuration: canonical attribute order, raw-text
//! and whitespace-preserving element sets, and tag-name casing.

use vstd::prelude::*;

verus! {

/// One entry of the attribute priority list: an exact name or a name prefix
/// (for families such as `data-*`). Matching is case-insensitive; `text` is
/// expected in lower case.
#[derive(Clone, Debug)]
pub struct Pattern {
    pub text: Vec<u8>,
    pub prefix: bool,
}

pub ghost struct PatternM {
    pub text: Seq<u8>,
    pub prefix: bool,
}

impl View for Pattern {
    type V = PatternM;

    open spec fn view(&self) -> PatternM {
        PatternM { text: self.text@, prefix: self.prefix }
    }
}

/// How tag names are case-normalized in emitted tokens.
#[derive(Clone, Copy, PartialEq, Eq, Structural, Debug)]
pub enum TagNameCase {
    Lower,
    Preserve,
}

/// The recognized configuration options. Element names are expected in lower
/// case; they are compared against lower-cased tag names.
#[derive(Clone, Debug)]
pub struct Config {
    /// Priority list for canonical attribute order; unmatched attributes
    /// fall back to case-insensitive lexicographic order after all matched
    /// ones.
    pub attribute_order: Vec<Pattern>,
    /// Elements whose content is opaque to tokenization.
    pub raw_text_elements: Vec<Vec<u8>>,
    /// Elements whose text is never collapsed, beyond the raw-text ones.
    pub preserve_whitespace_elements: Vec<Vec<u8>>,
    pub tag_name_case: TagNameCase,
}

pub ghost struct ConfigM {
    pub attribute_order: Seq<PatternM>,
    pub raw_text_elements: Seq<Seq<u8>>,
    pub preserve_whitespace_elements: Seq<Seq<u8>>,
    pub lower_names: bool,
}

impl View for Config {
    type V = ConfigM;

    open spec fn view(&self) -> ConfigM {
        ConfigM {
            attribute_order: self.attribute_order@.map_values(|p: Pattern| p@),
            raw_text_elements: self.raw_text_elements@.map_values(|v: Vec<u8>| v@),
            preserve_whitespace_elements: self.preserve_whitespace_elements@.map_values(
                |v: Vec<u8>| v@,
            ),
            lower_names: self.tag_name_case == TagNameCase::Lower,
        }
    }
}

impl ConfigM {
    /// Whether a lower-cased element name is a raw-text element.
    pub open spec fn is_raw_text(self, name_lower: Seq<u8>) -> bool {
        self.raw_text_elements.contains(name_lower)
    }

    /// Whether text directly inside a lower-cased element name must be left
    /// exactly as written.
    pub open spec fn preserves_ws(self, name_lower: Seq<u8>) -> bool {
        self.raw_text_elements.contains(name_lower)
            || self.preserve_whitespace_elements.contains(name_lower)
    }
}

impl Config {
    /// A configuration with no attribute priorities, no special elements and
    /// tag names lower-cased.
    pub fn new() -> (r: Config)
        ensures
            r@.attribute_order == Seq::<PatternM>::empty(),
            r@.raw_text_elements == Seq::<Seq<u8>>::empty(),
            r@.preserve_whitespace_elements == Seq::<Seq<u8>>::empty(),
            r@.lower_names,
    {
        let r = Config {
            attribute_order: Vec::new(),
            raw_text_elements: Vec::new(),
            preserve_whitespace_elements: Vec::new(),
            tag_name_case: TagNameCase::Lower,
        };
        proof {
            assert(r@.attribute_order =~= Seq::<PatternM>::empty());
            assert(r@.raw_text_elements =~= Seq::<Seq<u8>>::empty());
            assert(r@.preserve_whitespace_elements =~= Seq::<Seq<u8>>::empty());
        }
        r
    }
}

/// Whether two byte vectors hold the same bytes.
pub fn bytes_eq(a: &Vec<u8>, b: &Vec<u8>) -> (r: bool)
    ensures
        r == (a@ == b@),
{
    if a.len() != b.len() {
        proof {
            assert(a@ != b@);
        }
        return false;
    }
    let mut i: usize = 0;
    while i < a.len()
        invariant
            i <= a.len(),
            a.len() == b.len(),
            forall|j: int| 0 <= j < i ==> a@[j] == b@[j],
        decreases a.len() - i,
    {
        if a[i] != b[i] {
            return false;
        }
        i = i + 1;
    }
    proof {
        assert(a@ =~= b@);
    }
    true
}

/// Whether `name` occurs in `set` (a list of element names).
pub fn name_set_contains(set: &Vec<Vec<u8>>, name: &Vec<u8>) -> (r: bool)
    ensures
        r == set@.map_values(|v: Vec<u8>| v@).contains(name@),
{
    let ghost model = set@.map_values(|v: Vec<u8>| v@);
    let mut i: usize = 0;
    while i < set.len()
        invariant
            i <= set.len(),
            model == set@.map_values(|v: Vec<u8>| v@),
            forall|j: int| 0 <= j < i ==> model[j] != name@,
        decreases set.len() - i,
    {
        if bytes_eq(&set[i], name) {
            proof {
                assert(model[i as int] == name@);
            }
            return true;
        }
        i = i + 1;
    }
    proof {
        assert(forall|j: int| 0 <= j < model.len() ==> model[j] != name@);
    }
    false
}

} // verus!
