//! Custom widgets, which paint scenes of their own ahead of the document.

use crate::ieee::{Binary32, Binary64};
use vstd::prelude::*;

verus! {

/// Whether a widget may hold surfaces.
#[derive(Clone, Copy, Debug, PartialEq, Eq, Structural)]
pub enum CustomWidgetStatus {
    Suspended,
    Active,
}

/// What painting a widget reads of its node.
#[derive(Clone, Copy, Debug, PartialEq, Eq)]
pub struct WidgetNode {
    pub node_id: usize,
    /// The laid out size in CSS pixels.
    pub width: Binary32,
    pub height: Binary32,
    /// Whether the node has computed styles.
    pub styled: bool,
    /// The widget's status, where the node is an element that has a widget.
    pub status: Option<CustomWidgetStatus>,
}

/// How a widget is asked to paint.
#[derive(Clone, Copy, Debug, PartialEq, Eq, Structural)]
pub struct WidgetPaint {
    /// The size in device pixels.
    pub width: u32,
    pub height: u32,
    /// Whether the widget has to be told first that it may create surfaces.
    pub resume: bool,
    /// The status it has from then on.
    pub status: CustomWidgetStatus,
}

/// A widget to paint, and the key of the scene it makes.
#[derive(Clone, Copy, Debug, PartialEq, Eq, Structural)]
pub struct WidgetJob {
    pub document: usize,
    pub node_id: usize,
    pub paint: WidgetPaint,
}

/// A document with its widgets, and the documents inside it.
pub struct Document {
    pub id: usize,
    pub widgets: Vec<WidgetNode>,
    pub sub_documents: Vec<Document>,
}

pub open spec fn spec_device_length(length: Binary32, scale: Binary64) -> u32 {
    length.to_binary64().times(scale).to_unsigned(u32::MAX as u64) as u32
}

/// A length in whole device pixels.
#[verifier::when_used_as_spec(spec_device_length)]
pub fn device_length(length: Binary32, scale: Binary64) -> (r: u32)
    ensures
        r == spec_device_length(length, scale),
{
    length.to_binary64().times(scale).to_unsigned(u32::MAX as u64) as u32
}

pub open spec fn spec_process_custom_widget_node(node: WidgetNode, scale: Binary64) -> Option<
    WidgetPaint,
> {
    let width = device_length(node.width, scale);
    let height = device_length(node.height, scale);
    match node.status {
        Some(status) if width != 0 && height != 0 && node.styled => Some(
            WidgetPaint {
                width,
                height,
                resume: status is Suspended,
                status: CustomWidgetStatus::Active,
            },
        ),
        _ => None,
    }
}

/// How a widget is asked to paint. A widget without an extent, or whose node has no styles or
/// is no widget after all, is not asked. A suspended one is resumed, and active from then on.
#[verifier::when_used_as_spec(spec_process_custom_widget_node)]
pub fn process_custom_widget_node(node: WidgetNode, scale: Binary64) -> (r: Option<WidgetPaint>)
    ensures
        r == spec_process_custom_widget_node(node, scale),
{
    let width: u32 = device_length(node.width, scale);
    let height: u32 = device_length(node.height, scale);
    if width == 0 || height == 0 {
        return None;
    }
    if !node.styled {
        return None;
    }
    match node.status {
        None => None,
        Some(status) => {
            let resume: bool = matches!(status, CustomWidgetStatus::Suspended);
            Some(WidgetPaint { width, height, resume, status: CustomWidgetStatus::Active })
        },
    }
}

/// The status of a widget once it had its turn: one that was asked to paint is active, and any
/// other stays what it was.
pub fn status_after(node: WidgetNode, scale: Binary64) -> (r: Option<CustomWidgetStatus>)
    ensures
        r == (if process_custom_widget_node(node, scale) is Some {
            Some(CustomWidgetStatus::Active)
        } else {
            node.status
        }),
{
    match process_custom_widget_node(node, scale) {
        Some(paint) => Some(paint.status),
        None => node.status,
    }
}

/// The jobs of the first `n` widgets of a document.
pub open spec fn own_jobs(
    document: usize,
    widgets: Seq<WidgetNode>,
    scale: Binary64,
    n: nat,
) -> Seq<WidgetJob>
    decreases n,
{
    if n == 0 {
        Seq::empty()
    } else {
        let before = own_jobs(document, widgets, scale, (n - 1) as nat);
        let node = widgets[n - 1];
        match process_custom_widget_node(node, scale) {
            Some(paint) => before.push(WidgetJob { document, node_id: node.node_id, paint }),
            None => before,
        }
    }
}

/// The jobs of a document: its own widgets, and then those of the documents inside it.
pub open spec fn document_jobs(doc: Document, scale: Binary64) -> Seq<WidgetJob>
    decreases doc, 1int, 0nat,
{
    own_jobs(doc.id, doc.widgets@, scale, doc.widgets@.len()) + sub_document_jobs(
        doc,
        scale,
        doc.sub_documents@.len(),
    )
}

/// The jobs of the first `n` documents inside a document.
pub open spec fn sub_document_jobs(doc: Document, scale: Binary64, n: nat) -> Seq<WidgetJob>
    decreases doc, 0int, n,
{
    if n == 0 || n > doc.sub_documents@.len() {
        Seq::empty()
    } else {
        sub_document_jobs(doc, scale, (n - 1) as nat) + document_jobs(
            doc.sub_documents@[n - 1],
            scale,
        )
    }
}

/// Adds the jobs of every widget of a document and of all documents inside it.
pub fn build_custom_widget_scenes(jobs: &mut Vec<WidgetJob>, doc: &Document, scale: Binary64)
    ensures
        final(jobs)@ == old(jobs)@ + document_jobs(*doc, scale),
    decreases doc,
{
    let ghost start = jobs@;
    let ghost widgets = doc.widgets@;
    let mut i: usize = 0;
    assert(start + own_jobs(doc.id, widgets, scale, 0) =~= jobs@);
    while i < doc.widgets.len()
        invariant
            i <= widgets.len(),
            widgets == doc.widgets@,
            jobs@ == start + own_jobs(doc.id, widgets, scale, i as nat),
        decreases widgets.len() - i,
    {
        let node = doc.widgets[i];
        if let Some(paint) = process_custom_widget_node(node, scale) {
            jobs.push(WidgetJob { document: doc.id, node_id: node.node_id, paint });
        }
        assert(jobs@ =~= start + own_jobs(doc.id, widgets, scale, (i + 1) as nat));
        i = i + 1;
    }
    let ghost own = jobs@;
    let mut k: usize = 0;
    assert(own + sub_document_jobs(*doc, scale, 0) =~= jobs@);
    while k < doc.sub_documents.len()
        invariant
            k <= doc.sub_documents@.len(),
            jobs@ == own + sub_document_jobs(*doc, scale, k as nat),
        decreases doc.sub_documents@.len() - k,
    {
        build_custom_widget_scenes(jobs, &doc.sub_documents[k], scale);
        assert(jobs@ =~= own + sub_document_jobs(*doc, scale, (k + 1) as nat));
        k = k + 1;
    }
    assert(jobs@ =~= start + document_jobs(*doc, scale));
}

} // verus!
