//! Search records in the DocSearch layout; one page yields several heading
//! and content records.

use vstd::prelude::*;

verus! {

/// One search record.
#[derive(Debug, PartialEq)]
pub struct SearchRecord {
    pub anchor: Option<String>,
    pub content: Option<String>,
    pub record_type: String,
    pub tags: Vec<String>,
    pub url: String,
    pub url_without_variables: String,
    pub lang: String,
    pub url_without_anchor: String,
    pub no_variables: bool,
    pub object_id: String,
    pub page_rank: i32,
    pub level: i32,
    pub position: usize,
    pub hierarchy: HierarchyFields,
}

/// The heading path of a record and the navigation (radio) level fields.
#[derive(Debug, PartialEq)]
pub struct HierarchyFields {
    pub lvl0: Option<String>,
    pub lvl1: Option<String>,
    pub lvl2: Option<String>,
    pub lvl3: Option<String>,
    pub lvl4: Option<String>,
    pub lvl5: Option<String>,
    pub lvl6: Option<String>,
    pub radio_lvl0: Option<String>,
    pub radio_lvl1: Option<String>,
    pub radio_lvl2: Option<String>,
    pub radio_lvl3: Option<String>,
    pub radio_lvl4: Option<String>,
    pub radio_lvl5: Option<String>,
    pub radio_lvl6: Option<String>,
}

impl HierarchyFields {
    /// The heading path, level 0 first.
    pub open spec fn levels(&self) -> Seq<Option<Seq<char>>> {
        seq![
            self.lvl0.deep_view(),
            self.lvl1.deep_view(),
            self.lvl2.deep_view(),
            self.lvl3.deep_view(),
            self.lvl4.deep_view(),
            self.lvl5.deep_view(),
            self.lvl6.deep_view(),
        ]
    }

    /// The radio fields, level 0 first.
    pub open spec fn radios(&self) -> Seq<Option<Seq<char>>> {
        seq![
            self.radio_lvl0.deep_view(),
            self.radio_lvl1.deep_view(),
            self.radio_lvl2.deep_view(),
            self.radio_lvl3.deep_view(),
            self.radio_lvl4.deep_view(),
            self.radio_lvl5.deep_view(),
            self.radio_lvl6.deep_view(),
        ]
    }
}

impl Default for HierarchyFields {
    fn default() -> (r: Self)
        ensures
            r.levels() == Seq::new(7, |i: int| None::<Seq<char>>),
            r.radios() == Seq::new(7, |i: int| None::<Seq<char>>),
    {
        let r = HierarchyFields {
            lvl0: None,
            lvl1: None,
            lvl2: None,
            lvl3: None,
            lvl4: None,
            lvl5: None,
            lvl6: None,
            radio_lvl0: None,
            radio_lvl1: None,
            radio_lvl2: None,
            radio_lvl3: None,
            radio_lvl4: None,
            radio_lvl5: None,
            radio_lvl6: None,
        };
        assert(r.levels() =~= Seq::new(7, |i: int| None::<Seq<char>>));
        assert(r.radios() =~= Seq::new(7, |i: int| None::<Seq<char>>));
        r
    }
}

/// A search record as plain values.
pub struct RecordModel {
    pub anchor: Option<Seq<char>>,
    pub content: Option<Seq<char>>,
    pub record_type: Seq<char>,
    pub tags: Seq<Seq<char>>,
    pub url: Seq<char>,
    pub url_without_variables: Seq<char>,
    pub lang: Seq<char>,
    pub url_without_anchor: Seq<char>,
    pub no_variables: bool,
    pub object_id: Seq<char>,
    pub page_rank: i32,
    pub level: i32,
    pub position: usize,
    pub levels: Seq<Option<Seq<char>>>,
    pub radios: Seq<Option<Seq<char>>>,
}

impl View for SearchRecord {
    type V = RecordModel;

    open spec fn view(&self) -> RecordModel {
        RecordModel {
            anchor: self.anchor.deep_view(),
            content: self.content.deep_view(),
            record_type: self.record_type@,
            tags: self.tags.deep_view(),
            url: self.url@,
            url_without_variables: self.url_without_variables@,
            lang: self.lang@,
            url_without_anchor: self.url_without_anchor@,
            no_variables: self.no_variables,
            object_id: self.object_id@,
            page_rank: self.page_rank,
            level: self.level,
            position: self.position,
            levels: self.hierarchy.levels(),
            radios: self.hierarchy.radios(),
        }
    }
}

} // verus!
