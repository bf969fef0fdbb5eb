//! Unix paths as byte strings, read component by component.
//!
//! Two spellings of a path are the same path when they have the same
//! components: repeated and trailing separators do not count, nor does a `.`
//! anywhere but in front of a relative path.
use vstd::prelude::*;

verus! {

/// The byte `/`.
pub const SEPARATOR: u8 = 47;

/// The byte `.`.
pub const DOT: u8 = 46;

/// One component of a path, as specifications speak of it.
pub enum Part {
    Root,
    Current,
    Parent,
    Name(Seq<u8>),
}

/// One component of a path.
#[derive(Debug)]
pub enum Component {
    Root,
    Current,
    Parent,
    Name(Vec<u8>),
}

impl View for Component {
    type V = Part;

    open spec fn view(&self) -> Part {
        match self {
            Component::Root => Part::Root,
            Component::Current => Part::Current,
            Component::Parent => Part::Parent,
            Component::Name(name) => Part::Name(name@),
        }
    }
}

/// What lies between the separators of `path`; one more than there are
/// separators.
pub open spec fn segments(path: Seq<u8>) -> Seq<Seq<u8>>
    decreases path.len(),
{
    if path.len() == 0 {
        seq![Seq::<u8>::empty()]
    } else {
        let before = segments(path.drop_last());
        if path.last() == SEPARATOR {
            before.push(Seq::<u8>::empty())
        } else {
            before.drop_last().push(before.last().push(path.last()))
        }
    }
}

pub open spec fn is_dot(segment: Seq<u8>) -> bool {
    segment.len() == 1 && segment[0] == DOT
}

pub open spec fn is_dot_dot(segment: Seq<u8>) -> bool {
    segment.len() == 2 && segment[0] == DOT && segment[1] == DOT
}

/// Whether a segment stands for a component; an empty one and `.` do not.
pub open spec fn is_step(segment: Seq<u8>) -> bool {
    segment.len() > 0 && !is_dot(segment)
}

pub open spec fn step_part(segment: Seq<u8>) -> Part {
    if is_dot_dot(segment) {
        Part::Parent
    } else {
        Part::Name(segment)
    }
}

pub open spec fn steps(segments: Seq<Seq<u8>>) -> Seq<Part> {
    segments.filter(|s: Seq<u8>| is_step(s)).map_values(|s: Seq<u8>| step_part(s))
}

pub open spec fn absolute(path: Seq<u8>) -> bool {
    path.len() > 0 && path[0] == SEPARATOR
}

/// Whether `path` is `.` or begins with `./`.
pub open spec fn starts_here(path: Seq<u8>) -> bool {
    path.len() > 0 && path[0] == DOT && (path.len() == 1 || path[1] == SEPARATOR)
}

pub open spec fn leading(path: Seq<u8>) -> Seq<Part> {
    if absolute(path) {
        seq![Part::Root]
    } else if starts_here(path) {
        seq![Part::Current]
    } else {
        Seq::<Part>::empty()
    }
}

/// The components of `path`.
pub open spec fn parts(path: Seq<u8>) -> Seq<Part> {
    leading(path) + steps(segments(path))
}

pub open spec fn same_path(a: Seq<u8>, b: Seq<u8>) -> bool {
    parts(a) == parts(b)
}

/// How many paths there are from `path` upwards, `path` itself included: the
/// root ends the walk of an absolute path, the empty path that of a relative
/// one.
pub open spec fn depth(path: Seq<u8>) -> nat {
    if absolute(path) {
        parts(path).len()
    } else {
        parts(path).len() + 1
    }
}

/// `relative` put behind `base`; an absolute `relative` stands for itself.
pub open spec fn joined(base: Seq<u8>, relative: Seq<u8>) -> Seq<u8> {
    if absolute(relative) || base.len() == 0 {
        relative
    } else if base.last() == SEPARATOR {
        base + relative
    } else {
        base.push(SEPARATOR) + relative
    }
}

pub open spec fn part_text(part: Part) -> Seq<u8> {
    match part {
        Part::Root => seq![SEPARATOR],
        Part::Current => seq![DOT],
        Part::Parent => seq![DOT, DOT],
        Part::Name(name) => name,
    }
}

/// The plainest spelling of a list of components.
pub open spec fn render(list: Seq<Part>) -> Seq<u8>
    decreases list.len(),
{
    if list.len() == 0 {
        Seq::<u8>::empty()
    } else {
        joined(render(list.drop_last()), part_text(list.last()))
    }
}

/// The last component, where it is a name.
pub open spec fn file_name(path: Seq<u8>) -> Option<Seq<u8>> {
    if parts(path).len() > 0 {
        match parts(path).last() {
            Part::Name(name) => Some(name),
            _ => None,
        }
    } else {
        None
    }
}

/// The path without its last component; the root and the empty path have none.
pub open spec fn parent(path: Seq<u8>) -> Option<Seq<u8>> {
    if parts(path).len() > 0 && !(parts(path).last() is Root) {
        Some(render(parts(path).drop_last()))
    } else {
        None
    }
}

/// The path of `name` beside `path`, or below it where `path` ends in no name.
pub open spec fn with_file_name(path: Seq<u8>, name: Seq<u8>) -> Seq<u8> {
    if file_name(path) is Some {
        joined(parent(path)->0, name)
    } else {
        joined(path, name)
    }
}

/// Whether `..` is among the components.
pub open spec fn climbs(path: Seq<u8>) -> bool {
    parts(path).contains(Part::Parent)
}

/// Whether `name` can be the name of a directory entry.
pub open spec fn is_name(name: Seq<u8>) -> bool {
    is_step(name) && !is_dot_dot(name) && !name.contains(SEPARATOR)
}

/// Whether `list` is in the shape that every path's components have.
pub open spec fn well_formed(list: Seq<Part>) -> bool {
    forall|i: int|
        0 <= i < list.len() ==> match #[trigger] list[i] {
            Part::Root => i == 0,
            Part::Current => i == 0,
            Part::Parent => true,
            Part::Name(name) => is_name(name),
        }
}

proof fn lemma_steps_push(list: Seq<Seq<u8>>, segment: Seq<u8>)
    ensures
        steps(list.push(segment)) == if is_step(segment) {
            steps(list).push(step_part(segment))
        } else {
            steps(list)
        },
{
    reveal(Seq::filter);
    assert(list.push(segment).drop_last() == list);
    assert(steps(list.push(segment)) =~= if is_step(segment) {
        steps(list).push(step_part(segment))
    } else {
        steps(list)
    });
}

proof fn lemma_segments_nonempty(path: Seq<u8>)
    ensures
        segments(path).len() > 0,
    decreases path.len(),
{
    if path.len() > 0 {
        lemma_segments_nonempty(path.drop_last());
    }
}

proof fn lemma_segments_push(path: Seq<u8>, byte: u8)
    ensures
        segments(path.push(byte)) == if byte == SEPARATOR {
            segments(path).push(Seq::<u8>::empty())
        } else {
            segments(path).drop_last().push(segments(path).last().push(byte))
        },
{
    assert(path.push(byte).drop_last() == path);
}

/// Text without a separator lengthens the last segment.
proof fn lemma_segments_extend(path: Seq<u8>, text: Seq<u8>)
    requires
        !text.contains(SEPARATOR),
    ensures
        segments(path + text) == segments(path).drop_last().push(segments(path).last() + text),
    decreases text.len(),
{
    lemma_segments_nonempty(path);
    if text.len() == 0 {
        assert(path + text == path);
        assert(segments(path).last() + text == segments(path).last());
        assert(segments(path).drop_last().push(segments(path).last()) == segments(path));
    } else {
        let short = text.drop_last();
        assert(!short.contains(SEPARATOR)) by {
            if short.contains(SEPARATOR) {
                let i = choose|i: int| 0 <= i < short.len() && short[i] == SEPARATOR;
                assert(text[i] == SEPARATOR);
            }
        }
        assert(text[text.len() - 1] != SEPARATOR);
        lemma_segments_extend(path, short);
        lemma_segments_push(path + short, text.last());
        assert((path + short).push(text.last()) == path + text);
        let earlier = segments(path).drop_last().push(segments(path).last() + short);
        assert(earlier.drop_last() == segments(path).drop_last());
        assert(earlier.last().push(text.last()) == segments(path).last() + text);
    }
}

/// No segment holds a separator.
proof fn lemma_segments_plain(path: Seq<u8>)
    ensures
        forall|i: int|
            0 <= i < segments(path).len() ==> !(#[trigger] segments(path)[i]).contains(SEPARATOR),
    decreases path.len(),
{
    if path.len() > 0 {
        lemma_segments_plain(path.drop_last());
        lemma_segments_nonempty(path.drop_last());
        let before = segments(path.drop_last());
        if path.last() != SEPARATOR {
            assert forall|i: int| 0 <= i < segments(path).len() implies !(
            #[trigger] segments(path)[i]).contains(SEPARATOR) by {
                if i == segments(path).len() - 1 {
                    let grown = before.last().push(path.last());
                    if grown.contains(SEPARATOR) {
                        let j = choose|j: int| 0 <= j < grown.len() && grown[j] == SEPARATOR;
                        assert(j < before.last().len());
                        assert(before[before.len() - 1].contains(SEPARATOR));
                    }
                } else {
                    assert(segments(path)[i] == before[i]);
                }
            }
        }
    }
}

proof fn lemma_steps_well_formed(list: Seq<Seq<u8>>)
    requires
        forall|i: int| 0 <= i < list.len() ==> !(#[trigger] list[i]).contains(SEPARATOR),
    ensures
        forall|i: int|
            0 <= i < steps(list).len() ==> match #[trigger] steps(list)[i] {
                Part::Root => false,
                Part::Current => false,
                Part::Parent => true,
                Part::Name(name) => is_name(name),
            },
    decreases list.len(),
{
    if list.len() == 0 {
        reveal(Seq::filter);
    } else {
        let short = list.drop_last();
        assert forall|i: int| 0 <= i < short.len() implies !(#[trigger] short[i]).contains(
            SEPARATOR,
        ) by {
            assert(short[i] == list[i]);
        }
        lemma_steps_well_formed(short);
        lemma_steps_push(short, list.last());
        assert(short.push(list.last()) == list);
        assert(!list[list.len() - 1].contains(SEPARATOR));
    }
}

/// The components of every path have the expected shape: only the first can be
/// the root or `.`, and a name is neither empty, nor `.` or `..`, nor holds a
/// separator.
pub proof fn law_parts_well_formed(path: Seq<u8>)
    ensures
        well_formed(parts(path)),
{
    lemma_segments_plain(path);
    lemma_steps_well_formed(segments(path));
    assert forall|i: int| 0 <= i < parts(path).len() implies match #[trigger] parts(path)[i] {
        Part::Root => i == 0,
        Part::Current => i == 0,
        Part::Parent => true,
        Part::Name(name) => is_name(name),
    } by {
        let n = leading(path).len();
        if i >= n {
            assert(parts(path)[i] == steps(segments(path))[i - n]);
        }
    }
}

proof fn lemma_ends_open(path: Seq<u8>)
    requires
        path.len() > 0,
        path.last() == SEPARATOR,
    ensures
        segments(path).last().len() == 0,
{
}

/// A step put behind a path becomes its last component.
proof fn lemma_joined_step(base: Seq<u8>, step: Seq<u8>)
    requires
        is_step(step),
        !step.contains(SEPARATOR),
    ensures
        parts(joined(base, step)) == parts(base).push(step_part(step)),
{
    let path = joined(base, step);
    assert(step[0] != SEPARATOR);
    if step.len() > 1 {
        assert(step[1] != SEPARATOR);
    }
    if base.len() == 0 {
        lemma_segments_extend(base, step);
        assert(base + step == step);
        assert(segments(base) == seq![Seq::<u8>::empty()]);
        assert(segments(step) == Seq::<Seq<u8>>::empty().push(step)) by {
            assert(segments(base).drop_last() == Seq::<Seq<u8>>::empty());
            assert(segments(base).last() + step == step);
        }
        lemma_steps_push(Seq::<Seq<u8>>::empty(), step);
        assert(steps(Seq::<Seq<u8>>::empty()) == Seq::<Part>::empty()) by {
            reveal(Seq::filter);
            assert(steps(Seq::<Seq<u8>>::empty()) =~= Seq::<Part>::empty());
        }
        lemma_steps_push(Seq::<Seq<u8>>::empty(), Seq::<u8>::empty());
        assert(segments(base) == Seq::<Seq<u8>>::empty().push(Seq::<u8>::empty()));
        assert(parts(path) =~= parts(base).push(step_part(step)));
    } else if base.last() == SEPARATOR {
        lemma_segments_extend(base, step);
        lemma_ends_open(base);
        lemma_segments_nonempty(base);
        let front = segments(base).drop_last();
        assert(front.push(segments(base).last()) == segments(base));
        assert(segments(base).last() + step == step);
        lemma_steps_push(front, segments(base).last());
        lemma_steps_push(front, step);
        assert(leading(path) == leading(base));
        assert(parts(path) =~= parts(base).push(step_part(step)));
    } else {
        let open = base.push(SEPARATOR);
        lemma_segments_push(base, SEPARATOR);
        lemma_segments_extend(open, step);
        assert(segments(open).drop_last() == segments(base));
        assert(segments(open).last() + step == step);
        lemma_steps_push(segments(base), step);
        assert(leading(path) == leading(base)) by {
            assert(path[0] == base[0]);
            if base.len() > 1 {
                assert(path[1] == base[1]);
            } else {
                assert(path[1] == SEPARATOR);
            }
        }
        assert(parts(path) =~= parts(base).push(step_part(step)));
    }
}

/// Spelling out a list of components and reading them back gives the list.
pub proof fn law_render_round_trip(list: Seq<Part>)
    requires
        well_formed(list),
    ensures
        parts(render(list)) == list,
    decreases list.len(),
{
    if list.len() == 0 {
        lemma_steps_push(Seq::<Seq<u8>>::empty(), Seq::<u8>::empty());
        assert(segments(render(list)) == Seq::<Seq<u8>>::empty().push(Seq::<u8>::empty()));
        reveal(Seq::filter);
        assert(parts(render(list)) =~= list);
    } else {
        let front = list.drop_last();
        assert forall|i: int| 0 <= i < front.len() implies match #[trigger] front[i] {
            Part::Root => i == 0,
            Part::Current => i == 0,
            Part::Parent => true,
            Part::Name(name) => is_name(name),
        } by {
            assert(front[i] == list[i]);
        }
        law_render_round_trip(front);
        let last = list[list.len() - 1];
        assert(front.push(last) == list);
        match last {
            Part::Root => {
                let text = seq![SEPARATOR];
                assert(render(list) == text);
                assert(text.drop_last() == Seq::<u8>::empty());
                let empty = Seq::<Seq<u8>>::empty();
                assert(segments(text) == empty.push(Seq::<u8>::empty()).push(Seq::<u8>::empty()));
                lemma_steps_push(empty.push(Seq::<u8>::empty()), Seq::<u8>::empty());
                lemma_steps_push(empty, Seq::<u8>::empty());
                reveal(Seq::filter);
                assert(parts(text) =~= list);
            },
            Part::Current => {
                let text = seq![DOT];
                assert(render(list) == text);
                assert(text.drop_last() == Seq::<u8>::empty());
                let empty = Seq::<Seq<u8>>::empty();
                assert(segments(Seq::<u8>::empty()) == empty.push(Seq::<u8>::empty()));
                assert(segments(text) == empty.push(text)) by {
                    assert(segments(Seq::<u8>::empty()).drop_last() == empty);
                    assert(Seq::<u8>::empty().push(DOT) == text);
                }
                lemma_steps_push(empty, text);
                reveal(Seq::filter);
                assert(parts(text) =~= list);
            },
            Part::Parent => {
                let text = seq![DOT, DOT];
                assert(!text.contains(SEPARATOR));
                lemma_joined_step(render(front), text);
            },
            Part::Name(name) => {
                lemma_joined_step(render(front), name);
            },
        }
    }
}

/// The parent's components are those of the path without the last one.
pub proof fn law_parent_parts(path: Seq<u8>)
    requires
        parent(path) is Some,
    ensures
        parts(parent(path)->0) == parts(path).drop_last(),
{
    law_parts_well_formed(path);
    let front = parts(path).drop_last();
    assert forall|i: int| 0 <= i < front.len() implies match #[trigger] front[i] {
        Part::Root => i == 0,
        Part::Current => i == 0,
        Part::Parent => true,
        Part::Name(name) => is_name(name),
    } by {
        assert(front[i] == parts(path)[i]);
    }
    law_render_round_trip(front);
}

/// A name put beside a path that ends in a name takes that name's place: the
/// two paths lie in the same directory.
pub proof fn law_sibling(path: Seq<u8>, name: Seq<u8>)
    requires
        file_name(path) is Some,
        is_name(name),
    ensures
        parts(with_file_name(path, name)) == parts(path).drop_last().push(Part::Name(name)),
        parent(with_file_name(path, name)) == parent(path),
{
    law_parent_parts(path);
    lemma_joined_step(parent(path)->0, name);
    let sibling = with_file_name(path, name);
    assert(parts(sibling).drop_last() == parts(path).drop_last());
}

/// A path: any bytes, as the system takes them.
#[derive(Debug)]
pub struct PathBuf {
    pub bytes: Vec<u8>,
}

impl View for PathBuf {
    type V = Seq<u8>;

    open spec fn view(&self) -> Seq<u8> {
        self.bytes@
    }
}

impl Clone for PathBuf {
    fn clone(&self) -> (copy: Self)
        ensures
            copy@ == self@,
    {
        PathBuf { bytes: self.bytes.clone() }
    }
}

/// Paths are equal when their components are.
impl PartialEq for PathBuf {
    fn eq(&self, other: &Self) -> (equal: bool) {
        let left = self.components();
        let right = other.components();
        if left.len() != right.len() {
            proof {
                lemma_views_len(left@);
                lemma_views_len(right@);
            }
            return false;
        }
        let mut i: usize = 0;
        while i < left.len()
            invariant
                i <= left.len(),
                left.len() == right.len(),
                component_views(left@) == parts(self@),
                component_views(right@) == parts(other@),
                forall|j: int| 0 <= j < i ==> (#[trigger] left@[j])@ == right@[j]@,
            decreases left.len() - i,
        {
            if !component_equal(&left[i], &right[i]) {
                proof {
                    assert(component_views(left@)[i as int] != component_views(right@)[i as int]);
                }
                return false;
            }
            i = i + 1;
        }
        proof {
            assert(component_views(left@) =~= component_views(right@));
        }
        true
    }
}

impl Eq for PathBuf {

}

impl vstd::std_specs::cmp::PartialEqSpecImpl for PathBuf {
    open spec fn obeys_eq_spec() -> bool {
        true
    }

    open spec fn eq_spec(&self, other: &Self) -> bool {
        same_path(self@, other@)
    }
}

pub open spec fn component_views(list: Seq<Component>) -> Seq<Part> {
    list.map_values(|c: Component| c@)
}

proof fn lemma_views_len(list: Seq<Component>)
    ensures
        component_views(list).len() == list.len(),
{
}

/// Whether two byte strings are the same.
pub fn bytes_equal(a: &[u8], b: &[u8]) -> (equal: bool)
    ensures
        equal == (a@ == b@),
{
    if a.len() != b.len() {
        return false;
    }
    let mut i: usize = 0;
    while i < a.len()
        invariant
            i <= a.len(),
            a.len() == b.len(),
            forall|j: int| 0 <= j < i ==> a@[j] == b@[j],
        decreases a.len() - i,
    {
        if a[i] != b[i] {
            return false;
        }
        i = i + 1;
    }
    proof {
        assert(a@ =~= b@);
    }
    true
}

fn component_equal(a: &Component, b: &Component) -> (equal: bool)
    ensures
        equal == (a@ == b@),
{
    match (a, b) {
        (Component::Root, Component::Root) => true,
        (Component::Current, Component::Current) => true,
        (Component::Parent, Component::Parent) => true,
        (Component::Name(x), Component::Name(y)) => bytes_equal(x.as_slice(), y.as_slice()),
        _ => false,
    }
}

/// The component that a segment stands for, if any.
fn segment_component(segment: Vec<u8>) -> (component: Option<Component>)
    ensures
        is_step(segment@) ==> component is Some && component->0@ == step_part(segment@),
        !is_step(segment@) ==> component is None,
{
    if segment.len() == 0 || (segment.len() == 1 && segment[0] == DOT) {
        None
    } else if segment.len() == 2 && segment[0] == DOT && segment[1] == DOT {
        Some(Component::Parent)
    } else {
        Some(Component::Name(segment))
    }
}

/// Spells out a list of components.
fn render_components(list: &Vec<Component>) -> (path: PathBuf)
    ensures
        path@ == render(component_views(list@)),
{
    let mut path = PathBuf { bytes: Vec::new() };
    let mut i: usize = 0;
    proof {
        assert(component_views(list@).take(0) =~= Seq::<Part>::empty());
    }
    while i < list.len()
        invariant
            i <= list.len(),
            path@ == render(component_views(list@).take(i as int)),
        decreases list.len() - i,
    {
        let text = match &list[i] {
            Component::Root => vec![SEPARATOR],
            Component::Current => vec![DOT],
            Component::Parent => vec![DOT, DOT],
            Component::Name(name) => name.clone(),
        };
        proof {
            assert(text@ =~= part_text(list@[i as int]@));
            let longer = component_views(list@).take(i + 1);
            assert(longer.drop_last() =~= component_views(list@).take(i as int));
            assert(longer.last() == list@[i as int]@);
        }
        path = path.join(&text);
        i = i + 1;
    }
    proof {
        assert(component_views(list@).take(list.len() as int) =~= component_views(list@));
    }
    path
}

impl PathBuf {
    /// The path that `text` spells.
    pub fn from(text: &str) -> (path: PathBuf)
        ensures
            path@ == vstd::utf8::encode_utf8(text@),
    {
        PathBuf { bytes: vstd::slice::slice_to_vec(text.as_bytes()) }
    }

    /// The components of the path, from left to right.
    pub fn components(&self) -> (list: Vec<Component>)
        ensures
            component_views(list@) == parts(self@),
    {
        let bytes = &self.bytes;
        let mut list: Vec<Component> = Vec::new();
        if bytes.len() > 0 && bytes[0] == SEPARATOR {
            list.push(Component::Root);
        } else if bytes.len() > 0 && bytes[0] == DOT && (bytes.len() == 1 || bytes[1]
            == SEPARATOR) {
            list.push(Component::Current);
        }
        let mut segment: Vec<u8> = Vec::new();
        let mut i: usize = 0;
        let ghost mut done: Seq<Seq<u8>> = Seq::empty();
        proof {
            assert(self@.take(0) =~= Seq::<u8>::empty());
            assert(done.push(segment@) =~= segments(self@.take(0)));
            reveal(Seq::filter);
            assert(component_views(list@) =~= leading(self@) + steps(done));
        }
        while i < bytes.len()
            invariant
                i <= bytes.len(),
                bytes@ == self@,
                segments(self@.take(i as int)) == done.push(segment@),
                component_views(list@) == leading(self@) + steps(done),
            decreases bytes.len() - i,
        {
            let byte = bytes[i];
            proof {
                let shorter = self@.take(i as int);
                assert(shorter.push(byte) =~= self@.take(i + 1));
                lemma_segments_push(shorter, byte);
                assert(done.push(segment@).drop_last() =~= done);
            }
            if byte == SEPARATOR {
                proof {
                    lemma_steps_push(done, segment@);
                    done = done.push(segment@);
                }
                let ghost before = list@;
                if let Some(component) = segment_component(segment) {
                    list.push(component);
                    proof {
                        assert(component_views(list@) =~= component_views(before).push(
                            component@,
                        ));
                    }
                }
                proof {
                    assert(component_views(list@) =~= leading(self@) + steps(done));
                }
                segment = Vec::new();
            } else {
                segment.push(byte);
            }
            i = i + 1;
        }
        proof {
            assert(self@.take(bytes.len() as int) =~= self@);
            lemma_steps_push(done, segment@);
        }
        let ghost before = list@;
        if let Some(component) = segment_component(segment) {
            list.push(component);
            proof {
                assert(component_views(list@) =~= component_views(before).push(component@));
            }
        }
        proof {
            assert(component_views(list@) =~= parts(self@));
        }
        list
    }

    pub fn is_absolute(&self) -> (answer: bool)
        ensures
            answer == absolute(self@),
    {
        self.bytes.len() > 0 && self.bytes[0] == SEPARATOR
    }

    /// Whether `..` is among the components.
    pub fn has_parent_dir(&self) -> (answer: bool)
        ensures
            answer == climbs(self@),
    {
        let list = self.components();
        let mut i: usize = 0;
        while i < list.len()
            invariant
                i <= list.len(),
                component_views(list@) == parts(self@),
                forall|j: int| 0 <= j < i ==> !((#[trigger] list@[j])@ is Parent),
            decreases list.len() - i,
        {
            if let Component::Parent = &list[i] {
                proof {
                    assert(component_views(list@)[i as int] == Part::Parent);
                }
                return true;
            }
            i = i + 1;
        }
        proof {
            if climbs(self@) {
                let j = choose|j: int|
                    0 <= j < parts(self@).len() && parts(self@)[j] == Part::Parent;
                assert(component_views(list@)[j] == list@[j]@);
            }
        }
        false
    }

    /// How many ancestors the path has, itself included.
    pub fn depth(&self) -> (count: u128)
        ensures
            count == depth(self@),
    {
        let list = self.components();
        let length: usize = list.len();
        if self.is_absolute() {
            length as u128
        } else {
            length as u128 + 1
        }
    }

    /// `relative` put behind the path; an absolute one stands for itself.
    pub fn join(&self, relative: &Vec<u8>) -> (path: PathBuf)
        ensures
            path@ == joined(self@, relative@),
    {
        if (relative.len() > 0 && relative[0] == SEPARATOR) || self.bytes.len() == 0 {
            return PathBuf { bytes: relative.clone() };
        }
        let mut bytes = self.bytes.clone();
        if bytes[bytes.len() - 1] != SEPARATOR {
            bytes.push(SEPARATOR);
        }
        bytes.extend_from_slice(relative.as_slice());
        proof {
            assert(bytes@ =~= joined(self@, relative@));
        }
        PathBuf { bytes }
    }

    /// The last component, where it is a name.
    pub fn file_name(&self) -> (name: Option<Vec<u8>>)
        ensures
            match name {
                Some(bytes) => file_name(self@) == Some(bytes@),
                None => file_name(self@) is None,
            },
    {
        let mut list = self.components();
        proof {
            lemma_views_len(list@);
        }
        match list.pop() {
            Some(Component::Name(name)) => Some(name),
            _ => None,
        }
    }

    /// The path without its last component; the root and the empty path have
    /// none.
    pub fn parent(&self) -> (path: Option<PathBuf>)
        ensures
            match path {
                Some(found) => parent(self@) == Some(found@),
                None => parent(self@) is None,
            },
    {
        let mut list = self.components();
        let ghost whole = list@;
        match list.pop() {
            None => None,
            Some(Component::Root) => {
                proof {
                    assert(component_views(whole).last() is Root);
                }
                None
            },
            Some(last) => {
                proof {
                    assert(component_views(whole).last() == last@);
                    assert(component_views(list@) =~= component_views(whole).drop_last());
                }
                Some(render_components(&list))
            },
        }
    }

    /// The path of `name` beside this one, or below it where this one ends in
    /// no name.
    pub fn with_file_name(&self, name: &Vec<u8>) -> (path: PathBuf)
        ensures
            path@ == with_file_name(self@, name@),
    {
        if self.file_name().is_some() {
            if let Some(directory) = self.parent() {
                return directory.join(name);
            }
        }
        self.join(name)
    }
}

/// A name put behind a path is one more component, which is that name; `..` goes
/// up, and `.` and nothing at all are no components. A name is anything but these
/// without a separator in it.
pub proof fn law_components_of_a_step(base: Seq<u8>, name: Seq<u8>)
    requires
        !name.contains(SEPARATOR),
    ensures
        name.len() > 0 && name != seq![DOT] && name != seq![DOT, DOT] ==> parts(joined(base, name))
            == parts(base).push(Part::Name(name)),
        parts(joined(base, seq![DOT, DOT])) == parts(base).push(Part::Parent),
        base.len() > 0 ==> parts(joined(base, seq![DOT])) == parts(base),
        base.len() > 0 ==> parts(base.push(SEPARATOR)) == parts(base),
{
    if name.len() > 0 && name != seq![DOT] && name != seq![DOT, DOT] {
        if name.len() == 1 {
            assert(name =~= seq![name[0]]);
        }
        if name.len() == 2 {
            assert(name =~= seq![name[0], name[1]]);
        }
        lemma_joined_step(base, name);
    }
    let up = seq![DOT, DOT];
    assert(!up.contains(SEPARATOR));
    lemma_joined_step(base, up);
    if base.len() > 0 {
        lemma_trailing(base);
        lemma_trailing_dot(base);
    }
}

/// A separator at the end does not count.
proof fn lemma_trailing(base: Seq<u8>)
    requires
        base.len() > 0,
    ensures
        parts(base.push(SEPARATOR)) == parts(base),
{
    let open = base.push(SEPARATOR);
    lemma_segments_push(base, SEPARATOR);
    lemma_steps_push(segments(base), Seq::<u8>::empty());
    assert(open[0] == base[0]);
    if base.len() > 1 {
        assert(open[1] == base[1]);
    }
    assert(leading(open) == leading(base));
}

proof fn lemma_trailing_dot(base: Seq<u8>)
    requires
        base.len() > 0,
    ensures
        parts(joined(base, seq![DOT])) == parts(base),
{
    let dot = seq![DOT];
    assert(!dot.contains(SEPARATOR));
    let path = joined(base, dot);
    let open = if base.last() == SEPARATOR {
        base
    } else {
        base.push(SEPARATOR)
    };
    assert(path =~= open + dot);
    if base.last() != SEPARATOR {
        lemma_trailing(base);
    }
    lemma_segments_extend(open, dot);
    lemma_ends_open(open);
    lemma_segments_nonempty(open);
    let front = segments(open).drop_last();
    assert(segments(open).last() + dot =~= dot);
    assert(front.push(segments(open).last()) =~= segments(open));
    lemma_steps_push(front, segments(open).last());
    lemma_steps_push(front, dot);
    assert(path[0] == open[0]);
    if open.len() > 1 {
        assert(path[1] == open[1]);
    }
    assert(leading(path) == leading(open)) by {
        if open.len() == 1 {
            assert(open[0] == SEPARATOR);
        }
    }
}

/// What paths begin with: nothing, the root, or the directory that one is in.
pub proof fn law_components_of_a_start()
    ensures
        parts(Seq::<u8>::empty()) == Seq::<Part>::empty(),
        parts(seq![SEPARATOR]) == seq![Part::Root],
        parts(seq![DOT]) == seq![Part::Current],
{
    let none = Seq::<Part>::empty();
    law_render_round_trip(none);
    assert(render(none) =~= Seq::<u8>::empty());
    let root = seq![Part::Root];
    assert(root.drop_last() =~= none);
    assert(render(root) =~= seq![SEPARATOR]);
    law_render_round_trip(root);
    let here = seq![Part::Current];
    assert(here.drop_last() =~= none);
    assert(render(here) =~= seq![DOT]);
    law_render_round_trip(here);
}

/// A path is its directory and its name: the last component, where it is a name, is
/// the file name, and the others are those of the parent. The root and the empty
/// path have neither.
pub proof fn law_parent_and_name(path: Seq<u8>)
    ensures
        file_name(path) is Some ==> parent(path) is Some && parts(path) == parts(
            parent(path)->0,
        ).push(Part::Name(file_name(path)->0)),
        parent(path) is Some <==> parts(path).len() > 0 && parts(path).last() != Part::Root,
        parent(path) is Some ==> parts(parent(path)->0) == parts(path).drop_last(),
        file_name(path) is Some <==> parts(path).len() > 0 && parts(path).last() is Name,
        absolute(path) <==> path.len() > 0 && path[0] == SEPARATOR,
        climbs(path) <==> parts(path).contains(Part::Parent),
        absolute(path) ==> depth(path) == parts(path).len(),
        !absolute(path) ==> depth(path) == parts(path).len() + 1,
{
    if parent(path) is Some {
        law_parent_parts(path);
    }
    if file_name(path) is Some {
        assert(parts(path) =~= parts(path).drop_last().push(parts(path).last()));
    }
}

/// Paths are put together with one separator between them, unless the second is
/// absolute and stands for itself, or there is nothing in front.
pub proof fn law_joining(base: Seq<u8>, relative: Seq<u8>)
    ensures
        relative.len() > 0 && relative[0] == SEPARATOR ==> joined(base, relative) == relative,
        base.len() == 0 ==> joined(base, relative) == relative,
        base.len() > 0 && !(relative.len() > 0 && relative[0] == SEPARATOR) && base.last()
            != SEPARATOR ==> joined(base, relative) == base + seq![SEPARATOR] + relative,
        base.len() > 0 && !(relative.len() > 0 && relative[0] == SEPARATOR) && base.last()
            == SEPARATOR ==> joined(base, relative) == base + relative,
{
    assert(base.push(SEPARATOR) =~= base + seq![SEPARATOR]);
}

} // verus!
