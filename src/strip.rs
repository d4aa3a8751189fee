use vstd::prelude::*;
use vstd::slice::slice_to_vec;
use vstd::string::{StringExecFns, StringSliceAdditionalSpecFns};
use vstd::utf8::*;
use oxc::span::{SourceType, UnknownExtension};
use crate::options::StripTypesOptions;
use crate::span::Span;
use crate::splice::{
    covered, lemma_spliced_len, lemma_spliced_positions, lemma_spliced_valid, on_boundaries, ordered,
    replace_range, spliced, total_len, in_bounds, erasable,
};
use crate::tree::{
    Action, Node, SyntaxTree, classify, collected, collected_from, lemma_collected_from_boundaries,
    lemma_collected_ordered, lemma_nothing_to_erase, nodes_on_boundaries, skip_subtree, spec_action,
    well_formed,
};

verus! {

#[verifier::external_type_specification]
#[verifier::external_body]
pub struct ExSourceType(oxc::span::SourceType);

#[verifier::external_type_specification]
#[verifier::external_body]
pub struct ExUnknownExtension(oxc::span::UnknownExtension);

/// Whether the file name selects a dialect that the parser knows.
pub uninterp spec fn dialect_known(filename: Seq<char>) -> bool;

/// Relies on oxc's `SourceType::from_path`: it resolves the dialect from the
/// file name's extension, and fails exactly when that extension is unknown.
#[verifier::external_body]
fn source_type_of(filename: &str) -> (r: Result<SourceType, UnknownExtension>)
    ensures
        r is Ok <==> dialect_known(filename@),
{
    SourceType::from_path(filename)
}

/// Relies on the `Debug` text of oxc's `UnknownExtension` to describe why
/// the file name was refused.
#[verifier::external_body]
fn extension_detail(err: &UnknownExtension) -> String {
    format!("{:?}", err)
}

/// Relies on std's `String::from_utf8`: it succeeds exactly on valid UTF-8,
/// and the string then holds the characters those bytes encode.
#[verifier::external_body]
fn text_from_utf8(bytes: Vec<u8>) -> (r: Option<String>)
    ensures
        r is Some <==> valid_utf8(bytes@),
        r is Some ==> r->Some_0@ == decode_utf8(bytes@),
{
    String::from_utf8(bytes).ok()
}

/// A problem met while stripping a source text.
#[derive(Debug)]
pub enum Diagnostic {
    /// The file name selects no dialect that the parser knows.
    UnsupportedSourceKind { message: String },
}

impl Diagnostic {
    pub fn message(&self) -> (r: String)
        ensures
            r@ == match self {
                Diagnostic::UnsupportedSourceKind { message } => message@,
            },
    {
        match self {
            Diagnostic::UnsupportedSourceKind { message } => message.clone(),
        }
    }
}

/// The spans can be erased from `text`: inside the text, on character
/// boundaries, and, when bytes are removed, in increasing order and disjoint.
pub open spec fn spans_fit(spans: Seq<Span>, text: Seq<u8>, space: bool) -> bool {
    &&& erasable(spans, text.len(), space)
    &&& on_boundaries(text, spans)
}

/// The UTF-8 bytes of a text.
pub open spec fn bytes_of(text: Seq<char>) -> Seq<u8> {
    encode_utf8(text)
}

/// Collects the spans of a tree and erases them from a text.
pub struct StripTypesImpl {
    pub code: Vec<u8>,
    pub options: StripTypesOptions,
    pub spans: Vec<Span>,
}

impl StripTypesImpl {
    pub fn new(code: Vec<u8>, options: StripTypesOptions) -> (r: StripTypesImpl)
        ensures
            r.code@ == code@,
            r.options == options,
            r.spans@.len() == 0,
    {
        StripTypesImpl { code, options, spans: Vec::new() }
    }

    /// Records the span of `node`.
    pub fn push(&mut self, node: &Node)
        ensures
            final(self).spans@ == old(self).spans@.push(node.span),
            final(self).code@ == old(self).code@,
            final(self).options == old(self).options,
    {
        self.spans.push(node.span);
    }

    /// Walks the tree in pre-order and records the span of every node that
    /// the erasure rules erase whole, without looking inside it.
    pub fn visit_program(&mut self, tree: &SyntaxTree)
        ensures
            final(self).spans@ == old(self).spans@ + collected(tree.nodes@),
            final(self).code@ == old(self).code@,
            final(self).options == old(self).options,
    {
        let nodes = &tree.nodes;
        let n = nodes.len();
        let mut i: usize = 0;
        assert(old(self).spans@ + collected(nodes@) == self.spans@ + collected_from(nodes@, 0));
        while i < n
            invariant
                i <= n == nodes@.len(),
                old(self).spans@ + collected(nodes@) == self.spans@ + collected_from(
                    nodes@,
                    i as int,
                ),
                self.code@ == old(self).code@,
                self.options == old(self).options,
            decreases n - i,
        {
            let ghost before = self.spans@;
            match classify(&nodes[i]) {
                Action::Erase => {
                    self.push(&nodes[i]);
                    let next = skip_subtree(nodes, i);
                    assert(before + collected_from(nodes@, i as int) =~= self.spans@
                        + collected_from(nodes@, next as int));
                    i = next;
                },
                Action::Skip => {
                    i = skip_subtree(nodes, i);
                },
                Action::Descend => {
                    i = i + 1;
                },
            }
        }
        assert(collected_from(nodes@, n as int) =~= Seq::<Span>::empty());
        assert(self.spans@ + Seq::<Span>::empty() =~= self.spans@);
    }

    /// Erases the recorded spans from the code, the last recorded span first,
    /// so that removing bytes never moves a span still to be erased. Blanking
    /// takes the spans in any order; removing takes them in increasing order.
    pub fn replace_all(&mut self)
        requires
            erasable(old(self).spans@, old(self).code@.len(), old(self).options.replace_with_space),
        ensures
            final(self).code@ == spliced(
                old(self).code@,
                old(self).spans@,
                old(self).options.replace_with_space,
            ),
            final(self).spans@ == old(self).spans@,
            final(self).options == old(self).options,
    {
        let n = self.spans.len();
        let space = self.options.replace_with_space;
        let ghost text = self.code@;
        let ghost spans = self.spans@;
        let mut k: usize = n;
        assert(spans.subrange(0, n as int) =~= spans);
        while k > 0
            invariant
                k <= n == spans.len(),
                self.spans@ == spans,
                self.options == old(self).options,
                space == self.options.replace_with_space,
                erasable(spans, text.len(), space),
                spliced(text, spans, space) == spliced(
                    self.code@,
                    spans.subrange(0, k as int),
                    space,
                ),
                space ==> self.code@.len() == text.len(),
                !space && k < n ==> spans[k as int].start <= self.code@.len(),
                k == n ==> self.code@ == text,
            decreases k,
        {
            let span = self.spans[k - 1];
            assert(span.start <= span.end <= self.code@.len()) by {
                assert(spans[k - 1].start <= spans[k - 1].end <= text.len());
                if !space && k < n {
                    assert(spans[k - 1].end <= spans[k as int].start);
                }
            }
            assert(spans.subrange(0, k as int).drop_last() =~= spans.subrange(0, k - 1));
            self.code = replace_range(&self.code, span, space);
            k = k - 1;
        }
    }

    /// Collects the spans of `tree` after those already recorded and returns
    /// the code with all of them erased.
    pub fn build(self, tree: &SyntaxTree) -> (r: Vec<u8>)
        requires
            erasable(
                self.spans@ + collected(tree.nodes@),
                self.code@.len(),
                self.options.replace_with_space,
            ),
        ensures
            r@ == spliced(
                self.code@,
                self.spans@ + collected(tree.nodes@),
                self.options.replace_with_space,
            ),
    {
        let mut this = self;
        this.visit_program(tree);
        this.replace_all();
        this.code
    }
}

/// Whether `spans` can be erased from `text`: inside the text, on character
/// boundaries, and, when bytes are removed, in increasing order and disjoint.
pub fn check_spans(spans: &Vec<Span>, text: &str, replace_with_space: bool) -> (r: bool)
    ensures
        r == spans_fit(spans@, bytes_of(text@), replace_with_space),
{
    let ghost b = bytes_of(text@);
    let n = spans.len();
    let len = text.as_bytes().len();
    let mut k: usize = 0;
    proof {
        encode_utf8_valid_utf8(text@);
    }
    while k < n
        invariant
            k <= n == spans@.len(),
            len == b.len(),
            b == text.spec_bytes(),
            valid_utf8(b),
            forall|i: int|
                0 <= i < k ==> (#[trigger] spans@[i]).start <= spans@[i].end && spans@[i].end
                    <= b.len() && is_char_boundary(b, spans@[i].start as int)
                    && is_char_boundary(b, spans@[i].end as int),
            !replace_with_space ==> forall|i: int, j: int|
                0 <= i < j < k ==> (#[trigger] spans@[i]).end <= (#[trigger] spans@[j]).start,
        decreases n - k,
    {
        let s = spans[k];
        if s.start > s.end || s.end as usize > len {
            return false;
        }
        if !text.is_char_boundary(s.start as usize) || !text.is_char_boundary(s.end as usize) {
            return false;
        }
        if !replace_with_space {
            if k > 0 && spans[k - 1].end > s.start {
                assert(!ordered(spans@)) by {
                    assert(spans@[k - 1].end > spans@[k as int].start);
                }
                return false;
            }
            assert forall|i: int, j: int| 0 <= i < j < k + 1 implies (#[trigger] spans@[i]).end
                <= (#[trigger] spans@[j]).start by {
                if j == k && i < k - 1 {
                    assert(spans@[i].end <= spans@[k - 1].start);
                }
            }
        }
        k = k + 1;
    }
    true
}

/// The text that stripping `source` with the spans of `nodes` gives, as bytes.
pub open spec fn stripped_bytes(source: Seq<char>, nodes: Seq<Node>, space: bool) -> Seq<u8> {
    spliced(bytes_of(source), collected(nodes), space)
}

/// Every well-formed tree over a text, whose spans fall on character
/// boundaries, yields spans that `strip` can erase from that text in either
/// mode: they are in increasing order and never overlap.
pub proof fn lemma_tree_fits(tree: &SyntaxTree, source: Seq<char>)
    requires
        well_formed(tree.nodes@, bytes_of(source).len()),
        nodes_on_boundaries(tree.nodes@, bytes_of(source)),
    ensures
        spans_fit(collected(tree.nodes@), bytes_of(source), true),
        spans_fit(collected(tree.nodes@), bytes_of(source), false),
{
    lemma_collected_ordered(tree, bytes_of(source).len());
    lemma_collected_from_boundaries(tree.nodes@, bytes_of(source), 0);
}

/// A tree in which no node is erased whole, such as the parse of text that
/// was already stripped, leaves the text unchanged in either mode.
pub proof fn lemma_strip_without_types(source: Seq<char>, nodes: Seq<Node>, space: bool)
    requires
        forall|j: int| 0 <= j < nodes.len() ==> spec_action(#[trigger] nodes[j]) != Action::Erase,
    ensures
        collected(nodes).len() == 0,
        stripped_bytes(source, nodes, space) == bytes_of(source),
{
    lemma_nothing_to_erase(nodes, 0);
}

/// The layout of a stripped text: in space-fill mode, with the erased spans
/// in any order, it is as long as the source and every byte outside the spans
/// keeps its offset and value, each byte inside one becoming a space; in
/// removal mode, with the spans in order, it is shorter by their total length.
pub proof fn lemma_strip_layout(source: Seq<char>, nodes: Seq<Node>)
    requires
        in_bounds(collected(nodes), bytes_of(source).len()),
    ensures
        stripped_bytes(source, nodes, true).len() == bytes_of(source).len(),
        ordered(collected(nodes)) ==> stripped_bytes(source, nodes, false).len() + total_len(
            collected(nodes),
        ) == bytes_of(source).len(),
        forall|i: int|
            0 <= i < bytes_of(source).len() ==> #[trigger] stripped_bytes(source, nodes, true)[i]
                == if covered(collected(nodes), i) {
                32u8
            } else {
                bytes_of(source)[i]
            },
{
    if ordered(collected(nodes)) {
        lemma_spliced_len(bytes_of(source), collected(nodes), false);
    }
    lemma_spliced_positions(bytes_of(source), collected(nodes));
}

/// A tree in which no node is erased whole adds no span to those already
/// recorded, so `build` erases exactly those; with none recorded it returns
/// the code unchanged.
pub proof fn lemma_build_without_types(
    code: Seq<u8>,
    recorded: Seq<Span>,
    nodes: Seq<Node>,
    space: bool,
)
    requires
        forall|j: int| 0 <= j < nodes.len() ==> spec_action(#[trigger] nodes[j]) != Action::Erase,
    ensures
        recorded + collected(nodes) == recorded,
        spliced(code, Seq::<Span>::empty() + collected(nodes), space) == code,
{
    lemma_nothing_to_erase(nodes, 0);
    assert(recorded + collected(nodes) =~= recorded);
    assert(Seq::<Span>::empty() + collected(nodes) =~= Seq::<Span>::empty());
}

/// One strip operation: a source text, the name of its file and the options.
pub struct StripTypes {
    pub source_text: String,
    pub filename: String,
    pub errors: Vec<Diagnostic>,
    pub options: StripTypesOptions,
}

/// The text after stripping, and the problems met on the way.
pub struct StripTypesReturn {
    pub code: String,
    pub errors: Vec<Diagnostic>,
}

impl StripTypes {
    pub fn new(source_text: String, filename: String, options: StripTypesOptions) -> (r:
        StripTypes)
        ensures
            r.source_text@ == source_text@,
            r.filename@ == filename@,
            r.errors@.len() == 0,
            r.options == options,
    {
        StripTypes { source_text, filename, errors: Vec::new(), options }
    }

    /// Resolves the dialect from the file name. When it is unknown, records an
    /// unsupported-source diagnostic and fails.
    pub fn parse(&mut self) -> (r: Result<SourceType, ()>)
        ensures
            r is Ok <==> dialect_known(old(self).filename@),
            r is Ok ==> final(self).errors@ == old(self).errors@,
            r is Err ==> final(self).errors@.len() == old(self).errors@.len() + 1
                && final(self).errors@.subrange(0, old(self).errors@.len() as int)
                == old(self).errors@ && match final(self).errors@.last() {
                Diagnostic::UnsupportedSourceKind { message } => "Unsupported "@.is_prefix_of(
                    message@,
                ),
            },
            final(self).source_text@ == old(self).source_text@,
            final(self).filename@ == old(self).filename@,
            final(self).options == old(self).options,
    {
        match source_type_of(self.filename.as_str()) {
            Ok(source_type) => Ok(source_type),
            Err(err) => {
                let detail = extension_detail(&err);
                let mut message = String::from_str("Unsupported ");
                message.append(detail.as_str());
                assert("Unsupported "@.is_prefix_of(message@)) by {
                    assert(message@.subrange(0, "Unsupported "@.len() as int)
                        =~= "Unsupported "@);
                }
                self.errors.push(Diagnostic::UnsupportedSourceKind { message });
                assert(self.errors@.subrange(0, old(self).errors@.len() as int)
                    =~= old(self).errors@);
                Err(())
            },
        }
    }

    /// Whether the spans that `tree` yields can be erased from the source
    /// text, which `strip` asks of its tree.
    pub fn tree_fits(&self, tree: &SyntaxTree) -> (r: bool)
        ensures
            r == spans_fit(
                collected(tree.nodes@),
                bytes_of(self.source_text@),
                self.options.replace_with_space,
            ),
    {
        let mut walker = StripTypesImpl::new(Vec::new(), self.options);
        walker.visit_program(tree);
        assert(walker.spans@ =~= collected(tree.nodes@));
        check_spans(&walker.spans, self.source_text.as_str(), self.options.replace_with_space)
    }

    /// Strips the source text with the spans that `tree`, the parse of that
    /// text, yields. When the file name selects no known dialect, returns the
    /// source text unchanged with an unsupported-source diagnostic.
    pub fn strip(self, tree: &SyntaxTree) -> (r: StripTypesReturn)
        requires
            spans_fit(
                collected(tree.nodes@),
                bytes_of(self.source_text@),
                self.options.replace_with_space,
            ),
        ensures
            !dialect_known(self.filename@) ==> r.code@ == self.source_text@ && r.errors@.len()
                == self.errors@.len() + 1 && r.errors@.subrange(0, self.errors@.len() as int)
                == self.errors@ && match r.errors@.last() {
                Diagnostic::UnsupportedSourceKind { message } => "Unsupported "@.is_prefix_of(
                    message@,
                ),
            },
            dialect_known(self.filename@) ==> r.errors@.len() == 0 && bytes_of(r.code@)
                == stripped_bytes(self.source_text@, tree.nodes@, self.options.replace_with_space)
                && r.code@ == decode_utf8(
                stripped_bytes(self.source_text@, tree.nodes@, self.options.replace_with_space),
            ),
    {
        let mut this = self;
        match this.parse() {
            Err(()) => StripTypesReturn { code: this.source_text, errors: this.errors },
            Ok(_) => {
                let bytes = slice_to_vec(this.source_text.as_str().as_bytes());
                let ghost spans = collected(tree.nodes@);
                let ghost space = this.options.replace_with_space;
                assert(bytes@ == bytes_of(this.source_text@));
                let out = StripTypesImpl::new(bytes, this.options).build(tree);
                proof {
                    encode_utf8_valid_utf8(this.source_text@);
                    lemma_spliced_valid(bytes@, spans, space);
                    decode_utf8_encode_utf8(out@);
                }
                match text_from_utf8(out) {
                    Some(code) => StripTypesReturn { code, errors: Vec::new() },
                    None => {
                        proof {
                            assert(false);
                        }
                        StripTypesReturn { code: this.source_text, errors: Vec::new() }
                    },
                }
            },
        }
    }
}

} // verus!
