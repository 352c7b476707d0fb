//! The catalog as a document.

use vstd::prelude::*;
use vstd::string::*;

verus! {

/// The contents that go into the document: all of them, or, where a holiday
/// book was recommended, all but the first.
pub open spec fn kept_items(items: Seq<Seq<char>>, holiday_active: bool) -> Seq<Seq<char>>
    recommends
        holiday_active ==> items.len() > 0,
{
    if holiday_active {
        items.drop_first()
    } else {
        items
    }
}

/// The catalog as a document of four lines: the declaration, the opening of
/// the list, the contents one after the other with nothing between them,
/// and the closing of the list.
pub open spec fn document(items: Seq<Seq<char>>, holiday_active: bool) -> Seq<char>
    recommends
        holiday_active ==> items.len() > 0,
{
    "<?xml version=\"1.0\"?>\n<catalog-list>\n"@ + kept_items(items, holiday_active).flatten()
        + "\n</catalog-list>"@
}

/// Writes the catalog of the gathered contents as a document. Where a
/// holiday book was recommended, the first content is left out.
pub fn render_catalog(items: &Vec<String>, holiday_active: bool) -> (catalog: String)
    requires
        holiday_active ==> items.len() > 0,
    ensures
        catalog@ == document(items.deep_view(), holiday_active),
{
    let ghost kept = kept_items(items.deep_view(), holiday_active);
    let mut catalog = String::from_str("<?xml version=\"1.0\"?>\n<catalog-list>\n");
    let first: usize = if holiday_active {
        1
    } else {
        0
    };
    let mut i: usize = first;
    proof {
        assert(kept.take(0) =~= Seq::<Seq<char>>::empty());
        assert(catalog@ =~= "<?xml version=\"1.0\"?>\n<catalog-list>\n"@ + kept.take(0).flatten());
    }
    while i < items.len()
        invariant
            first <= i <= items.len(),
            first <= 1,
            kept.len() == items.len() - first,
            forall|k: int| 0 <= k < kept.len() ==> kept[k] == (#[trigger] items[k + first])@,
            catalog@ == "<?xml version=\"1.0\"?>\n<catalog-list>\n"@ + kept.take(i - first).flatten(),
        decreases items.len() - i,
    {
        catalog.append(items[i].as_str());
        proof {
            let before = kept.take(i - first);
            assert(kept.take(i + 1 - first) =~= before.push(items[i as int]@));
            before.lemma_flatten_push(items[i as int]@);
            assert(catalog@ =~= "<?xml version=\"1.0\"?>\n<catalog-list>\n"@ + kept.take(
                i + 1 - first,
            ).flatten());
        }
        i += 1;
    }
    assert(kept.take(items.len() - first) =~= kept);
    catalog.append("\n</catalog-list>");
    catalog
}

} // verus!
