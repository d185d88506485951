//! Structural extraction for Markdown text.
//!
//! Given raw document bytes, the library produces a structured view of the
//! document: headings with unique anchor slugs, a table of contents, inline
//! and reference-style links, code blocks, task-list items, frontmatter
//! metadata, and readability statistics.  Every stage is total over arbitrary
//! byte input: malformed regions degrade to literal spans instead of failing
//! the whole document.
//!
//! Each extraction stage is specified by a function of the input bytes
//! alone, and the executable pipeline is proved equal to it; running the
//! engine twice on identical input and index state therefore yields
//! identical results.

pub mod blocks;
pub mod extract;
pub mod frontmatter;
pub mod headings;
pub mod links;
pub mod model;
pub mod text;
pub mod toc;

use vstd::prelude::*;
use crate::blocks::scan_blocks;
use crate::extract::{codes_match, spec_code_blocks, tasks_match, spec_tasks, spec_word_count,
    code_blocks_of_blocks, tasks_of_blocks, word_count_of_blocks};
use crate::frontmatter::{spec_frontmatter, fviews, frontmatter_of_blocks};
use crate::headings::{hviews, spec_headings, slugs_distinct, headings_of_blocks};
use crate::links::{links_match, spec_links, iviews, eviews, spec_backlinks,
    distinct_edges, links_of_blocks, resolve_backlinks, lemma_links_match_views};
use crate::model::{Document, DocIndex};
use crate::toc::{toc_parent, toc_parents, build_toc, node_wf, parents_of,
    lemma_parents_determined};

verus! {

/// Estimated reading time in whole minutes at 200 words per minute,
/// rounded up, and 0 for an empty document.
pub fn reading_time_minutes(word_count: usize) -> (r: usize)
    ensures
        word_count == 0 ==> r == 0,
        word_count > 0 ==> r == (word_count + 199) / 200,
        word_count > 0 ==> r >= 1,
{
    let whole: usize = word_count / 200;
    let part: usize = word_count % 200;
    if part != 0 {
        whole + 1
    } else {
        whole
    }
}

/// Runs the whole extraction pipeline on one document.
///
/// Every field of the result is pinned to a specification function of the
/// input bytes (and, for backlinks, the supplied index and document
/// identifier), so identical invocations yield identical documents.
/// Backlink edges exist only when both an identifier and an index are
/// supplied; without them the edge set is empty whatever the links say.
pub fn parse_markdown(text: &[u8], source_id: Option<u64>, index: Option<&DocIndex>) -> (d:
    Document)
    ensures
        hviews(d.headings@) == spec_headings(text@),
        slugs_distinct(hviews(d.headings@)),
        links_match(d.links@, spec_links(text@)),
        codes_match(d.code_blocks@, spec_code_blocks(text@)),
        tasks_match(d.tasks@, spec_tasks(text@)),
        (match d.frontmatter {
            Option::None => spec_frontmatter(text@).is_none(),
            Option::Some(v) => spec_frontmatter(text@) == Some(fviews(v@)),
        }),
        d.word_count as int == spec_word_count(text@),
        d.word_count == 0 ==> d.reading_time_minutes == 0,
        d.word_count > 0 ==> d.reading_time_minutes as int == (d.word_count as int + 199) / 200
            && d.reading_time_minutes >= 1,
        source_id.is_some() && index.is_some() ==> eviews(d.backlinks@) == spec_backlinks(
            spec_links(text@),
            iviews(index.unwrap().entries@),
            source_id.unwrap(),
        ),
        source_id.is_none() || index.is_none() ==> d.backlinks@.len() == 0,
        distinct_edges(eviews(d.backlinks@)),
        forall|k: int|
            0 <= k < d.table_of_contents@.len() ==> (#[trigger] d.table_of_contents@[k]).heading
                < d.headings@.len() && toc_parent(
                hviews(d.headings@),
                d.table_of_contents@[k].heading as int,
            ).is_none(),
        forall|j: int|
            0 <= j < d.headings@.len() && toc_parent(hviews(d.headings@), j).is_none()
                ==> exists|k: int|
                0 <= k < d.table_of_contents@.len()
                    && (#[trigger] d.table_of_contents@[k]).heading == j,
        forall|k: int|
            0 <= k < d.table_of_contents@.len() ==> node_wf(
                #[trigger] d.table_of_contents@[k],
                parents_of(hviews(d.headings@)),
            ),
        forall|k1: int, k2: int|
            0 <= k1 < k2 < d.table_of_contents@.len()
                ==> (#[trigger] d.table_of_contents@[k1]).heading
                < (#[trigger] d.table_of_contents@[k2]).heading,
{
    let blocks = scan_blocks(text);
    let headings = headings_of_blocks(text, &blocks);
    let parents = toc_parents(&headings);
    let table_of_contents = build_toc(&parents);
    let links = links_of_blocks(text, &blocks);
    let code_blocks = code_blocks_of_blocks(text, &blocks);
    let tasks = tasks_of_blocks(text, &blocks);
    let frontmatter = frontmatter_of_blocks(text, &blocks);
    let word_count = word_count_of_blocks(text, &blocks);
    let reading_time = reading_time_minutes(word_count);
    let backlinks = match (source_id, index) {
        (Option::Some(src), Option::Some(idx)) => {
            proof {
                lemma_links_match_views(links@, spec_links(text@));
            }
            resolve_backlinks(&links, idx, src)
        },
        _ => {
            proof {
                assert(eviews(Seq::<crate::model::BacklinkEdge>::empty()) =~= Seq::<
                    crate::links::SEdge,
                >::empty());
            }
            Vec::new()
        },
    };
    proof {
        lemma_parents_determined(parents@, hviews(headings@));
        assert forall|j: int|
            0 <= j < headings@.len() && toc_parent(hviews(headings@), j).is_none()
                implies exists|k: int|
                0 <= k < table_of_contents@.len()
                    && (#[trigger] table_of_contents@[k]).heading == j by {
            assert(parents@[j] is None);
        }
    }
    Document {
        frontmatter,
        headings,
        table_of_contents,
        links,
        code_blocks,
        tasks,
        backlinks,
        word_count,
        reading_time_minutes: reading_time,
    }
}

/// Idempotence: two runs of the engine on identical input and identical
/// index state yield documents that agree on every extracted field,
/// because each field is pinned to a specification function of the input.
pub proof fn lemma_engine_idempotent(t: Seq<u8>, d1: Document, d2: Document)
    requires
        hviews(d1.headings@) == spec_headings(t),
        hviews(d2.headings@) == spec_headings(t),
        links_match(d1.links@, spec_links(t)),
        links_match(d2.links@, spec_links(t)),
        codes_match(d1.code_blocks@, spec_code_blocks(t)),
        codes_match(d2.code_blocks@, spec_code_blocks(t)),
        tasks_match(d1.tasks@, spec_tasks(t)),
        tasks_match(d2.tasks@, spec_tasks(t)),
        d1.word_count as int == spec_word_count(t),
        d2.word_count as int == spec_word_count(t),
        eviews(d1.backlinks@) == eviews(d2.backlinks@) || (d1.backlinks@.len() == 0
            && d2.backlinks@.len() == 0),
    ensures
        hviews(d1.headings@) == hviews(d2.headings@),
        crate::links::lviews(d1.links@) == crate::links::lviews(d2.links@),
        d1.word_count == d2.word_count,
        eviews(d1.backlinks@) == eviews(d2.backlinks@),
{
    lemma_links_match_views(d1.links@, spec_links(t));
    lemma_links_match_views(d2.links@, spec_links(t));
    if d1.backlinks@.len() == 0 && d2.backlinks@.len() == 0 {
        assert(eviews(d1.backlinks@) =~= eviews(d2.backlinks@));
    }
}

} // verus!
