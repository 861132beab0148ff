//! The part of indexing that the library computes: which texts are embedded, and for
//! which images.
use vstd::prelude::*;
use crate::image_context::{
    extract_image_links, extract_section_context, image_links_of, link_views, section_of,
    ImageLink,
};

verus! {

/// The image references of `content`, in order, each with the text of the section it
/// stands in as its context.
pub fn image_sections(content: &str) -> (links: Vec<ImageLink>)
    ensures
        links@.len() == image_links_of(content@).len(),
        forall|i: int|
            0 <= i < links@.len() ==> {
                let l = #[trigger] links@[i]@;
                let m = image_links_of(content@)[i];
                &&& l.path == m.path
                &&& l.position == m.position
                &&& l.syntax_type == m.syntax_type
                &&& l.context == section_of(content@, m.position as int)
            },
{
    let found = extract_image_links(content);
    let mut links: Vec<ImageLink> = Vec::new();
    let mut i: usize = 0;
    while i < found.len()
        invariant
            link_views(found@) == image_links_of(content@),
            i <= found@.len(),
            links@.len() == i,
            forall|k: int|
                0 <= k < i ==> {
                    let l = #[trigger] links@[k]@;
                    let m = image_links_of(content@)[k];
                    &&& l.path == m.path
                    &&& l.position == m.position
                    &&& l.syntax_type == m.syntax_type
                    &&& l.context == section_of(content@, m.position as int)
                },
        decreases found@.len() - i,
    {
        let context = extract_section_context(content, found[i].position);
        proof {
            assert(found@[i as int]@ == image_links_of(content@)[i as int]);
        }
        links.push(
            ImageLink {
                path: found[i].path.clone(),
                position: found[i].position,
                context,
                syntax_type: found[i].syntax_type,
            },
        );
        i = i + 1;
    }
    links
}

} // verus!
