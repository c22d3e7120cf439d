//! Classifiers: determine the category based on active window metadata.
use vstd::prelude::*;
use crate::categories::UniqueCategories;
use crate::encoding::sorted_strict;
use crate::error::ErrorMessage;

verus! {

use vstd::string::StringExecFns;

/// Metadata for the current active window.
#[derive(Debug)]
pub struct ActiveWindowMetadata {
    pub title: Option<String>,
    pub class: Option<String>,
}

/// A field-equality predicate over window metadata.
#[derive(Debug)]
pub enum MetadataFilter {
    /// Matches when the window title equals the given text.
    TitleIs(String),
    /// Matches when the window class equals the given text.
    ClassIs(String),
    /// Matches every window.
    Any,
}

pub open spec fn filter_matches(f: MetadataFilter, md: ActiveWindowMetadata) -> bool {
    match f {
        MetadataFilter::TitleIs(t) => md.title matches Some(s) && s@ == t@,
        MetadataFilter::ClassIs(c) => md.class matches Some(s) && s@ == c@,
        MetadataFilter::Any => true,
    }
}

/// The category of the first rule that matches, if any.
pub open spec fn classify_spec(
    filters: Seq<(String, MetadataFilter)>,
    md: ActiveWindowMetadata,
) -> Option<Seq<char>>
    decreases filters.len(),
{
    if filters.len() == 0 {
        None
    } else if filter_matches(filters[0].1, md) {
        Some(filters[0].0@)
    } else {
        classify_spec(filters.drop_first(), md)
    }
}

/// Classifier: determines the category based on active window metadata.
pub trait Classifier {
    /// Returns the set of all categories defined in the classifier.
    fn categories(&self) -> Result<UniqueCategories, ErrorMessage>;

    /// Returns the category name for the metadata, or None if not matched.
    /// The category must be in the set returned by categories().
    fn classify(&self, metadata: &ActiveWindowMetadata) -> Result<Option<String>, ErrorMessage>;
}

/// Evaluates one rule against the metadata.
fn filter_matches_exec(f: &MetadataFilter, md: &ActiveWindowMetadata) -> (b: bool)
    ensures
        b == filter_matches(*f, *md),
{
    match f {
        MetadataFilter::TitleIs(t) => match &md.title {
            Some(s) => *s == *t,
            None => false,
        },
        MetadataFilter::ClassIs(c) => match &md.class {
            Some(s) => *s == *c,
            None => false,
        },
        MetadataFilter::Any => true,
    }
}

/// Stores rules used to determine categories for time spent. Rules are
/// kept in an ordered list; the first matching rule chooses the category.
/// A category can appear in multiple rules.
pub struct TestClassifier {
    pub filters: Vec<(String, MetadataFilter)>,
}

impl TestClassifier {
    /// A classifier with the default rules: terminal windows count as
    /// coding, everything else as unknown.
    pub fn new() -> (r: Self)
        ensures
            r.filters@.len() == 2,
            r.filters@[0].0@ == "coding"@,
            (r.filters@[0].1 matches MetadataFilter::ClassIs(c) && c@ == "konsole"@),
            r.filters@[1].0@ == "unknown"@,
            r.filters@[1].1 is Any,
    {
        let mut classifier = TestClassifier { filters: Vec::new() };
        classifier.append_filter("coding", MetadataFilter::ClassIs(String::from_str("konsole")));
        classifier.append_filter("unknown", MetadataFilter::Any);
        classifier
    }

    /// Add a rule at the end of the list, for the given category.
    pub fn append_filter(&mut self, category: &str, filter: MetadataFilter)
        ensures
            final(self).filters@.len() == old(self).filters@.len() + 1,
            final(self).filters@.last().0@ == category@,
            final(self).filters@.last().1 == filter,
            forall|i: int|
                0 <= i < old(self).filters@.len() ==> final(self).filters@[i] == old(
                    self,
                ).filters@[i],
    {
        self.filters.push((String::from_str(category), filter));
    }

    /// The categories over all rules, sorted and unique.
    pub fn category_set(&self) -> (r: UniqueCategories)
        ensures
            sorted_strict(r.dv()),
            forall|x: Seq<char>|
                #![trigger r.dv().contains(x)]
                r.dv().contains(x) <==> (exists|i: int|
                    0 <= i < self.filters@.len() && (#[trigger] self.filters@[i].0@) == x),
    {
        let n = self.filters.len();
        let mut names: Vec<String> = Vec::new();
        let mut i: usize = 0;
        while i < n
            invariant
                i <= n,
                n == self.filters@.len(),
                names@.len() == i,
                forall|j: int| 0 <= j < i ==> (#[trigger] names.deep_view()[j])
                    == self.filters@[j].0@,
            decreases n - i,
        {
            let pair = &self.filters[i];
            let ghost prev = names.deep_view();
            names.push(pair.0.clone());
            proof {
                assert(names.deep_view() =~~= prev.push(self.filters@[i as int].0@));
            }
            i += 1;
        }
        let r = UniqueCategories::make_unique(names);
        proof {
            assert forall|x: Seq<char>| r.dv().contains(x) <==> (exists|i2: int|
                0 <= i2 < self.filters@.len() && (#[trigger] self.filters@[i2].0@) == x) by {
                if names.deep_view().contains(x) {
                    let j = choose|j: int|
                        0 <= j < names.deep_view().len() && (#[trigger] names.deep_view()[j]) == x;
                    assert(self.filters@[j].0@ == x);
                }
                if exists|i2: int|
                    0 <= i2 < self.filters@.len() && (#[trigger] self.filters@[i2].0@) == x {
                    let j = choose|i2: int|
                        0 <= i2 < self.filters@.len() && (#[trigger] self.filters@[i2].0@) == x;
                    assert(names.deep_view()[j] == x);
                    assert(names.deep_view().contains(x));
                }
            }
        }
        r
    }

    /// The category of the first rule matching the metadata, if any.
    pub fn classify_name(&self, metadata: &ActiveWindowMetadata) -> (r: Option<String>)
        ensures
            match r {
                Some(name) => classify_spec(self.filters@, *metadata) == Some(name@),
                None => classify_spec(self.filters@, *metadata) is None,
            },
            r matches Some(name) ==> (exists|i: int|
                0 <= i < self.filters@.len() && (#[trigger] self.filters@[i].0@) == name@),
    {
        let n = self.filters.len();
        let ghost fls = self.filters@;
        let mut i: usize = 0;
        assert(fls.skip(0) =~= fls);
        while i < n
            invariant
                i <= n,
                n == fls.len(),
                fls == self.filters@,
                classify_spec(fls, *metadata) == classify_spec(fls.skip(i as int), *metadata),
            decreases n - i,
        {
            let pair = &self.filters[i];
            assert(fls.skip(i as int)[0] == fls[i as int]);
            if filter_matches_exec(&pair.1, metadata) {
                let name = pair.0.clone();
                assert(classify_spec(fls.skip(i as int), *metadata) == Some(fls[i as int].0@));
                return Some(name);
            }
            proof {
                assert(fls.skip(i as int).drop_first() =~= fls.skip(i as int + 1));
            }
            i += 1;
        }
        assert(fls.skip(n as int).len() == 0);
        None
    }
}

impl Classifier for TestClassifier {
    fn categories(&self) -> (r: Result<UniqueCategories, ErrorMessage>)
        ensures
            r matches Ok(u) && sorted_strict(u.dv()) && (forall|x: Seq<char>|
                #![trigger u.dv().contains(x)]
                u.dv().contains(x) <==> (exists|i: int|
                    0 <= i < self.filters@.len() && (#[trigger] self.filters@[i].0@) == x)),
    {
        Ok(self.category_set())
    }

    fn classify(&self, metadata: &ActiveWindowMetadata) -> (r: Result<Option<String>, ErrorMessage>)
        ensures
            r matches Ok(o) && (match o {
                Some(name) => classify_spec(self.filters@, *metadata) == Some(name@),
                None => classify_spec(self.filters@, *metadata) is None,
            }),
            r matches Ok(o) ==> (o matches Some(name) ==> (exists|i: int|
                0 <= i < self.filters@.len() && (#[trigger] self.filters@[i].0@) == name@)),
    {
        Ok(self.classify_name(metadata))
    }
}

} // verus!
