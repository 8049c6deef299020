//! The declared dependencies of a node: each declared field is classified
//! into exactly one role, with its dotted access path parsed into segments.
use vstd::prelude::*;

verus! {

/// One segment of a dotted access path: `$name` is bound to the cycler
/// instance, `name?` unwraps an optional value.
#[derive(Clone, Debug)]
pub struct PathSegment {
    pub name: String,
    pub is_optional: bool,
    pub is_variable: bool,
}

/// The mathematical content of a [`PathSegment`].
pub struct SegmentView {
    pub name: Seq<char>,
    pub is_optional: bool,
    pub is_variable: bool,
}

impl View for PathSegment {
    type V = SegmentView;

    open spec fn view(&self) -> SegmentView {
        SegmentView { name: self.name@, is_optional: self.is_optional, is_variable: self.is_variable }
    }
}

/// The segment that the text `s` denotes: a leading `$` marks a variable,
/// a trailing `?` an optional segment; the name is what lies between.
pub open spec fn segment_of(s: Seq<char>) -> SegmentView {
    let is_variable = s.len() > 0 && s[0] == '$';
    let is_optional = s.len() > 0 && s.last() == '?';
    let start: int = if is_variable { 1 } else { 0 };
    let end: int = if is_optional { s.len() - 1 } else { s.len() as int };
    SegmentView { name: s.subrange(start, end), is_optional, is_variable }
}

/// The pieces of `s` between dots, in order; a text without dots is one piece.
pub open spec fn split_dots(s: Seq<char>) -> Seq<Seq<char>>
    decreases s.len(),
{
    if s.len() == 0 {
        seq![Seq::<char>::empty()]
    } else {
        let init = split_dots(s.drop_last());
        if s.last() == '.' {
            init.push(Seq::<char>::empty())
        } else {
            init.update(init.len() - 1, init.last().push(s.last()))
        }
    }
}

/// The segments of the dotted path `s`.
pub open spec fn path_of(s: Seq<char>) -> Seq<SegmentView> {
    split_dots(s).map_values(|t: Seq<char>| segment_of(t))
}

/// The views of a sequence of segments.
pub open spec fn segments_view(p: Seq<PathSegment>) -> Seq<SegmentView> {
    p.map_values(|s: PathSegment| s@)
}

/// Some segment of `p` is optional.
pub open spec fn has_optional(p: Seq<SegmentView>) -> bool {
    exists|i: int| 0 <= i < p.len() && (#[trigger] p[i]).is_optional
}

impl PathSegment {
    /// Parses one segment text.
    pub fn from_text(segment: &str) -> (r: PathSegment)
        ensures
            r@ == segment_of(segment@),
    {
        let length = segment.unicode_len();
        let is_variable = length > 0 && segment.get_char(0) == '$';
        let is_optional = length > 0 && segment.get_char(length - 1) == '?';
        let start: usize = if is_variable { 1 } else { 0 };
        let end: usize = if is_optional { length - 1 } else { length };
        let name = segment.substring_char(start, end).to_owned();
        PathSegment { name, is_optional, is_variable }
    }
}

impl<'a> From<&'a str> for PathSegment {
    fn from(segment: &'a str) -> (r: PathSegment)
        ensures
            r@ == segment_of(segment@),
    {
        PathSegment::from_text(segment)
    }
}

/// A segment holds its name as a `String`, which no spec function builds
/// from text: the conversion is described by the `ensures` of `from` alone.
impl<'a> vstd::std_specs::convert::FromSpecImpl<&'a str> for PathSegment {
    open spec fn obeys_from_spec() -> bool {
        false
    }

    open spec fn from_spec(segment: &'a str) -> PathSegment {
        arbitrary()
    }
}

proof fn lemma_segments_view_push(p: Seq<PathSegment>, s: PathSegment)
    ensures
        segments_view(p.push(s)) == segments_view(p).push(s@),
{
    assert(segments_view(p.push(s)) =~= segments_view(p).push(s@));
}

/// Parses a dotted path into its segments.
pub fn parse_path(path: &str) -> (r: Vec<PathSegment>)
    ensures
        segments_view(r@) == path_of(path@),
{
    let ghost s = path@;
    let ghost done: Seq<Seq<char>> = Seq::empty();
    let length = path.unicode_len();
    let mut segments: Vec<PathSegment> = Vec::new();
    let mut start: usize = 0;
    let mut i: usize = 0;
    assert(s.take(0) =~= Seq::<char>::empty());
    assert(done.push(s.subrange(0, 0)) =~= seq![Seq::<char>::empty()]);
    assert(segments_view(segments@) =~= done.map_values(|t: Seq<char>| segment_of(t)));
    while i < length
        invariant
            length == s.len(),
            s == path@,
            start <= i <= length,
            split_dots(s.take(i as int)) == done.push(s.subrange(start as int, i as int)),
            segments_view(segments@) == done.map_values(|t: Seq<char>| segment_of(t)),
        decreases length - i,
    {
        let c = path.get_char(i);
        proof {
            assert(s.take(i + 1).drop_last() =~= s.take(i as int));
            assert(s.take(i + 1).last() == c);
        }
        if c == '.' {
            let piece = path.substring_char(start, i);
            let segment = PathSegment::from_text(piece);
            let ghost before = segments@;
            segments.push(segment);
            proof {
                lemma_segments_view_push(before, segment);
                assert(segments_view(segments@) =~= done.push(piece@).map_values(
                    |t: Seq<char>| segment_of(t),
                ));
                done = done.push(piece@);
                assert(s.subrange(i + 1, i + 1) =~= Seq::<char>::empty());
            }
            start = i + 1;
        } else {
            proof {
                assert(s.subrange(start as int, i as int).push(c) =~= s.subrange(
                    start as int,
                    i + 1,
                ));
            }
        }
        i = i + 1;
    }
    let piece = path.substring_char(start, length);
    let segment = PathSegment::from_text(piece);
    let ghost before = segments@;
    segments.push(segment);
    proof {
        lemma_segments_view_push(before, segment);
        assert(s.take(length as int) =~= s);
        assert(segments_view(segments@) =~= done.push(piece@).map_values(
            |t: Seq<char>| segment_of(t),
        ));
    }
    segments
}


/// The roles a node's field can have.
#[derive(Clone, Copy, Debug, PartialEq, Eq, Structural)]
pub enum Role {
    AdditionalOutput,
    CyclerInstance,
    HardwareInterface,
    HistoricInput,
    Input,
    MainOutput,
    Parameter,
    PerceptionInput,
    PersistentState,
    RequiredInput,
}

/// The role that the text `s` names, if any.
pub open spec fn role_named(s: Seq<char>) -> Option<Role> {
    if s == "AdditionalOutput"@ {
        Some(Role::AdditionalOutput)
    } else if s == "CyclerInstance"@ {
        Some(Role::CyclerInstance)
    } else if s == "HardwareInterface"@ {
        Some(Role::HardwareInterface)
    } else if s == "HistoricInput"@ {
        Some(Role::HistoricInput)
    } else if s == "Input"@ {
        Some(Role::Input)
    } else if s == "MainOutput"@ {
        Some(Role::MainOutput)
    } else if s == "Parameter"@ {
        Some(Role::Parameter)
    } else if s == "PerceptionInput"@ {
        Some(Role::PerceptionInput)
    } else if s == "PersistentState"@ {
        Some(Role::PersistentState)
    } else if s == "RequiredInput"@ {
        Some(Role::RequiredInput)
    } else {
        None
    }
}

/// Whether `n` arguments fit the role: the data type first, then the
/// producing cycler instance where the role takes one, then the path.
pub open spec fn accepts_argument_count(role: Role, n: nat) -> bool {
    match role {
        Role::CyclerInstance | Role::HardwareInterface => n == 0,
        Role::MainOutput => n == 1,
        Role::AdditionalOutput | Role::HistoricInput | Role::Parameter
        | Role::PersistentState => n == 2,
        Role::PerceptionInput => n == 3,
        Role::Input | Role::RequiredInput => n == 2 || n == 3,
    }
}

/// Whether the role reads a value along a path.
pub open spec fn has_path(role: Role) -> bool {
    !(role is CyclerInstance || role is HardwareInterface || role is MainOutput)
}

/// Whether two texts are equal, character by character.
pub fn text_equals(a: &str, b: &str) -> (r: bool)
    ensures
        r == (a@ == b@),
{
    let length = a.unicode_len();
    if length != b.unicode_len() {
        return false;
    }
    let mut i: usize = 0;
    while i < length
        invariant
            length == a@.len(),
            length == b@.len(),
            i <= length,
            forall|j: int| 0 <= j < i ==> a@[j] == b@[j],
        decreases length - i,
    {
        if a.get_char(i) != b.get_char(i) {
            return false;
        }
        i = i + 1;
    }
    assert(a@ =~= b@);
    true
}

/// The role that `name` names, if any.
pub fn role_from_name(name: &str) -> (r: Option<Role>)
    ensures
        r == role_named(name@),
{
    if text_equals(name, "AdditionalOutput") {
        Some(Role::AdditionalOutput)
    } else if text_equals(name, "CyclerInstance") {
        Some(Role::CyclerInstance)
    } else if text_equals(name, "HardwareInterface") {
        Some(Role::HardwareInterface)
    } else if text_equals(name, "HistoricInput") {
        Some(Role::HistoricInput)
    } else if text_equals(name, "Input") {
        Some(Role::Input)
    } else if text_equals(name, "MainOutput") {
        Some(Role::MainOutput)
    } else if text_equals(name, "Parameter") {
        Some(Role::Parameter)
    } else if text_equals(name, "PerceptionInput") {
        Some(Role::PerceptionInput)
    } else if text_equals(name, "PersistentState") {
        Some(Role::PersistentState)
    } else if text_equals(name, "RequiredInput") {
        Some(Role::RequiredInput)
    } else {
        None
    }
}

/// One declared dependency of a node, as its node lists it: the
/// field's name, the role's name and the role's arguments (the data type,
/// the producing cycler instance where the role takes one, and the path).
pub struct FieldDeclaration {
    pub name: String,
    pub role: String,
    pub arguments: Vec<String>,
}

/// A classified dependency of a node.
#[allow(inconsistent_fields)]
pub enum Field {
    AdditionalOutput { data_type: String, name: String, path: Vec<PathSegment> },
    CyclerInstance { name: String },
    HardwareInterface { name: String },
    HistoricInput { data_type: String, name: String, path: Vec<PathSegment> },
    Input {
        cycler_instance: Option<String>,
        data_type: String,
        name: String,
        path: Vec<PathSegment>,
    },
    MainOutput { data_type: String, name: String },
    Parameter { data_type: String, name: String, path: Vec<PathSegment> },
    PerceptionInput {
        cycler_instance: String,
        data_type: String,
        name: String,
        path: Vec<PathSegment>,
    },
    PersistentState { data_type: String, name: String, path: Vec<PathSegment> },
    RequiredInput {
        cycler_instance: Option<String>,
        data_type: String,
        name: String,
        path: Vec<PathSegment>,
    },
}

/// Why a declaration was rejected.
#[derive(Clone, Copy, Debug, PartialEq, Eq, Structural)]
pub enum ClassificationErrorKind {
    UnknownRole,
    WrongArgumentCount,
    MissingOptionalSegment,
    UnexpectedOptionalSegment,
}

/// A rejected declaration: the offending field and what was wrong with it.
pub struct ClassificationError {
    pub field_name: String,
    pub kind: ClassificationErrorKind,
}

/// The arguments of a declaration, as texts.
pub open spec fn arguments_of(d: FieldDeclaration) -> Seq<Seq<char>> {
    d.arguments@.map_values(|a: String| a@)
}

/// The path that a declaration with a path-reading role declares.
pub open spec fn declared_path(d: FieldDeclaration) -> Seq<SegmentView> {
    path_of(arguments_of(d).last())
}

/// Why the classifier rejects `d`, or `None` when it accepts it.
pub open spec fn rejection(d: FieldDeclaration) -> Option<ClassificationErrorKind> {
    match role_named(d.role@) {
        None => Some(ClassificationErrorKind::UnknownRole),
        Some(role) => if !accepts_argument_count(role, d.arguments@.len()) {
            Some(ClassificationErrorKind::WrongArgumentCount)
        } else if role is RequiredInput && !has_optional(declared_path(d)) {
            Some(ClassificationErrorKind::MissingOptionalSegment)
        } else if (role is AdditionalOutput || role is PerceptionInput) && has_optional(
            declared_path(d),
        ) {
            Some(ClassificationErrorKind::UnexpectedOptionalSegment)
        } else {
            None
        },
    }
}

/// The optional producing instance that `f` names matches the arguments `a`:
/// none with two arguments, the middle one with three.
pub open spec fn instance_matches(c: Option<String>, a: Seq<Seq<char>>) -> bool {
    match c {
        None => a.len() == 2,
        Some(x) => a.len() == 3 && x@ == a[1],
    }
}

impl Field {
    /// The role of the field.
    pub open spec fn role(&self) -> Role {
        match self {
            Field::AdditionalOutput { .. } => Role::AdditionalOutput,
            Field::CyclerInstance { .. } => Role::CyclerInstance,
            Field::HardwareInterface { .. } => Role::HardwareInterface,
            Field::HistoricInput { .. } => Role::HistoricInput,
            Field::Input { .. } => Role::Input,
            Field::MainOutput { .. } => Role::MainOutput,
            Field::Parameter { .. } => Role::Parameter,
            Field::PerceptionInput { .. } => Role::PerceptionInput,
            Field::PersistentState { .. } => Role::PersistentState,
            Field::RequiredInput { .. } => Role::RequiredInput,
        }
    }

    /// The name of the field.
    pub open spec fn name_view(&self) -> Seq<char> {
        match self {
            Field::AdditionalOutput { name, .. } => name@,
            Field::CyclerInstance { name } => name@,
            Field::HardwareInterface { name } => name@,
            Field::HistoricInput { name, .. } => name@,
            Field::Input { name, .. } => name@,
            Field::MainOutput { name, .. } => name@,
            Field::Parameter { name, .. } => name@,
            Field::PerceptionInput { name, .. } => name@,
            Field::PersistentState { name, .. } => name@,
            Field::RequiredInput { name, .. } => name@,
        }
    }

    /// `self` is the classification of the accepted declaration `d`.
    pub open spec fn describes(&self, d: FieldDeclaration) -> bool {
        let a = arguments_of(d);
        &&& role_named(d.role@) == Some(self.role())
        &&& self.name_view() == d.name@
        &&& match self {
            Field::CyclerInstance { .. } | Field::HardwareInterface { .. } => true,
            Field::MainOutput { data_type, .. } => data_type@ == a[0],
            Field::AdditionalOutput { data_type, path, .. }
            | Field::HistoricInput { data_type, path, .. }
            | Field::Parameter { data_type, path, .. }
            | Field::PersistentState { data_type, path, .. } => data_type@ == a[0]
                && segments_view(path@) == declared_path(d),
            Field::Input { cycler_instance, data_type, path, .. }
            | Field::RequiredInput { cycler_instance, data_type, path, .. } => data_type@ == a[0]
                && segments_view(path@) == declared_path(d) && instance_matches(
                *cycler_instance,
                a,
            ),
            Field::PerceptionInput { cycler_instance, data_type, path, .. } => data_type@ == a[0]
                && segments_view(path@) == declared_path(d) && cycler_instance@ == a[1],
        }
    }

    /// Classifies one declared dependency, or says why it is malformed.
    pub fn try_from_declaration(declaration: &FieldDeclaration) -> (r: Result<
        Field,
        ClassificationError,
    >)
        ensures
            r is Ok <==> rejection(*declaration) is None,
            r matches Ok(f) ==> f.describes(*declaration),
            r matches Err(e) ==> Some(e.kind) == rejection(*declaration) && e.field_name@
                == declaration.name@,
    {
        let name = declaration.name.clone();
        let arguments = &declaration.arguments;
        let count = arguments.len();
        let role = match role_from_name(declaration.role.as_str()) {
            Some(role) => role,
            None => {
                return Err(
                    ClassificationError { field_name: name, kind: ClassificationErrorKind::UnknownRole },
                );
            },
        };
        let count_fits = match role {
            Role::CyclerInstance | Role::HardwareInterface => count == 0,
            Role::MainOutput => count == 1,
            Role::AdditionalOutput | Role::HistoricInput | Role::Parameter
            | Role::PersistentState => count == 2,
            Role::PerceptionInput => count == 3,
            Role::Input | Role::RequiredInput => count == 2 || count == 3,
        };
        if !count_fits {
            return Err(
                ClassificationError {
                    field_name: name,
                    kind: ClassificationErrorKind::WrongArgumentCount,
                },
            );
        }
        match role {
            Role::CyclerInstance => {
                return Ok(Field::CyclerInstance { name });
            },
            Role::HardwareInterface => {
                return Ok(Field::HardwareInterface { name });
            },
            Role::MainOutput => {
                let data_type = arguments[0].clone();
                return Ok(Field::MainOutput { data_type, name });
            },
            _ => {},
        }
        proof {
            assert(arguments_of(*declaration).last() == arguments@[count - 1]@);
        }
        let path = parse_path(arguments[count - 1].as_str());
        let optional = contains_optional(&path);
        let data_type = arguments[0].clone();
        proof {
            assert(arguments_of(*declaration)[0] == arguments@[0]@);
        }
        match role {
            Role::AdditionalOutput => {
                if optional {
                    Err(
                        ClassificationError {
                            field_name: name,
                            kind: ClassificationErrorKind::UnexpectedOptionalSegment,
                        },
                    )
                } else {
                    Ok(Field::AdditionalOutput { data_type, name, path })
                }
            },
            Role::HistoricInput => Ok(Field::HistoricInput { data_type, name, path }),
            Role::Parameter => Ok(Field::Parameter { data_type, name, path }),
            Role::PersistentState => Ok(Field::PersistentState { data_type, name, path }),
            Role::PerceptionInput => {
                if optional {
                    Err(
                        ClassificationError {
                            field_name: name,
                            kind: ClassificationErrorKind::UnexpectedOptionalSegment,
                        },
                    )
                } else {
                    let cycler_instance = arguments[1].clone();
                    proof {
                        assert(arguments_of(*declaration)[1] == arguments@[1]@);
                    }
                    Ok(Field::PerceptionInput { cycler_instance, data_type, name, path })
                }
            },
            Role::Input => {
                let cycler_instance = instance_argument(arguments);
                Ok(Field::Input { cycler_instance, data_type, name, path })
            },
            _ => {
                if !optional {
                    Err(
                        ClassificationError {
                            field_name: name,
                            kind: ClassificationErrorKind::MissingOptionalSegment,
                        },
                    )
                } else {
                    let cycler_instance = instance_argument(arguments);
                    Ok(Field::RequiredInput { cycler_instance, data_type, name, path })
                }
            },
        }
    }
}

/// The producing instance among the arguments: the middle one of three.
fn instance_argument(arguments: &Vec<String>) -> (r: Option<String>)
    requires
        arguments@.len() == 2 || arguments@.len() == 3,
    ensures
        instance_matches(r, arguments@.map_values(|a: String| a@)),
{
    if arguments.len() == 3 {
        let instance = arguments[1].clone();
        assert(arguments@.map_values(|a: String| a@)[1] == arguments@[1]@);
        Some(instance)
    } else {
        None
    }
}

/// Whether some segment of `path` is optional.
pub fn contains_optional(path: &Vec<PathSegment>) -> (r: bool)
    ensures
        r == has_optional(segments_view(path@)),
{
    let mut i: usize = 0;
    while i < path.len()
        invariant
            i <= path@.len(),
            forall|j: int| 0 <= j < i ==> !path@[j].is_optional,
        decreases path@.len() - i,
    {
        if path[i].is_optional {
            assert(segments_view(path@)[i as int].is_optional);
            return true;
        }
        i = i + 1;
    }
    assert forall|j: int| 0 <= j < segments_view(path@).len() implies !(
    #[trigger] segments_view(path@)[j]).is_optional by {
        assert(segments_view(path@)[j] == path@[j]@);
    }
    false
}


/// Classifies every declaration in order, stopping at the first one that
/// is rejected.
pub fn classify_fields(declarations: &Vec<FieldDeclaration>) -> (r: Result<
    Vec<Field>,
    ClassificationError,
>)
    ensures
        r is Ok <==> forall|i: int|
            0 <= i < declarations@.len() ==> (#[trigger] rejection(declarations@[i])) is None,
        r matches Ok(fields) ==> fields@.len() == declarations@.len() && forall|i: int|
            0 <= i < fields@.len() ==> #[trigger] fields@[i].describes(declarations@[i]),
        r matches Err(e) ==> exists|i: int|
            0 <= i < declarations@.len() && Some(e.kind) == #[trigger] rejection(declarations@[i])
                && e.field_name@ == declarations@[i].name@ && forall|j: int|
                0 <= j < i ==> (#[trigger] rejection(declarations@[j])) is None,
{
    let mut fields: Vec<Field> = Vec::new();
    let mut i: usize = 0;
    while i < declarations.len()
        invariant
            i <= declarations@.len(),
            fields@.len() == i,
            forall|j: int| 0 <= j < i ==> (#[trigger] rejection(declarations@[j])) is None,
            forall|j: int| 0 <= j < i ==> #[trigger] fields@[j].describes(declarations@[j]),
        decreases declarations@.len() - i,
    {
        match Field::try_from_declaration(&declarations[i]) {
            Ok(field) => {
                fields.push(field);
            },
            Err(e) => {
                return Err(e);
            },
        }
        i = i + 1;
    }
    Ok(fields)
}

/// A `RequiredInput` declaration without an optional path segment is always
/// rejected; one with a fitting number of arguments and an optional segment
/// is always accepted.
pub proof fn lemma_required_input_needs_optional_segment(d: FieldDeclaration)
    requires
        role_named(d.role@) == Some(Role::RequiredInput),
    ensures
        !has_optional(declared_path(d)) ==> rejection(d) is Some,
        (d.arguments@.len() == 2 || d.arguments@.len() == 3) && has_optional(declared_path(d))
            ==> rejection(d) is None,
{
}

} // verus!
