//! The prompt record: the content unit the store holds and the backup format
//! carries.

use vstd::prelude::*;

verus! {

/// Mathematical model of a prompt record, over character sequences.
#[verifier::ext_equal]
pub ghost struct PromptV {
    pub id: Seq<char>,
    pub title: Seq<char>,
    pub content: Seq<char>,
    pub description: Option<Seq<char>>,
    pub category: Option<Seq<char>>,
    pub tags: Seq<Seq<char>>,
}

/// A named, tagged text record.
///
/// `id` is the natural key for upsert: the store keeps at most one record per
/// `id`.
pub struct Prompt {
    pub id: String,
    pub title: String,
    pub content: String,
    pub description: Option<String>,
    pub category: Option<String>,
    pub tags: Vec<String>,
}

impl View for Prompt {
    type V = PromptV;

    open spec fn view(&self) -> PromptV {
        PromptV {
            id: self.id@,
            title: self.title@,
            content: self.content@,
            description: self.description.deep_view(),
            category: self.category.deep_view(),
            tags: self.tags.deep_view(),
        }
    }
}

impl DeepView for Prompt {
    type V = PromptV;

    open spec fn deep_view(&self) -> PromptV {
        self.view()
    }
}

impl Prompt {
    /// Builds a record with the given key, display name and body; the
    /// optional fields start empty.
    pub fn new(id: &str, title: &str, content: &str) -> (p: Prompt)
        ensures
            p@ == (PromptV {
                id: id@,
                title: title@,
                content: content@,
                description: None,
                category: None,
                tags: Seq::empty(),
            }),
    {
        let p = Prompt {
            id: id.to_owned(),
            title: title.to_owned(),
            content: content.to_owned(),
            description: None,
            category: None,
            tags: Vec::new(),
        };
        proof {
            assert(p@.tags =~= Seq::<Seq<char>>::empty());
            assert(p@ =~= (PromptV {
                id: id@,
                title: title@,
                content: content@,
                description: None,
                category: None,
                tags: Seq::empty(),
            }));
        }
        p
    }

    /// A copy with the same model.
    pub fn duplicate(&self) -> (r: Prompt)
        ensures
            r@ == self@,
    {
        let description = match &self.description {
            Some(d) => Some(d.clone()),
            None => None,
        };
        let category = match &self.category {
            Some(c) => Some(c.clone()),
            None => None,
        };
        let mut tags: Vec<String> = Vec::new();
        let mut i: usize = 0;
        while i < self.tags.len()
            invariant
                i <= self.tags@.len(),
                tags@.len() == i,
                forall|j: int| 0 <= j < i ==> tags@[j]@ == #[trigger] self.tags@[j]@,
            decreases self.tags@.len() - i,
        {
            tags.push(self.tags[i].clone());
            i = i + 1;
        }
        let r = Prompt {
            id: self.id.clone(),
            title: self.title.clone(),
            content: self.content.clone(),
            description,
            category,
            tags,
        };
        proof {
            assert(r@.tags =~= self@.tags);
            assert(r@ =~= self@);
        }
        r
    }
}

} // verus!
