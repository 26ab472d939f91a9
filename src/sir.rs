//! The semantic intermediate representation (SIR) and its mathematical model.

use vstd::prelude::*;

verus! {

/// Mathematical model of an [`Expression`].
pub enum Expr {
    Binary { operation: BinaryOperation, left: Box<Expr>, right: Box<Expr> },
    Call { function: Box<Expr>, arguments: Seq<Expr> },
    GlobalRef { name: Seq<char>, data_type: Ty },
    Int(i64),
    Member { left: Box<Expr>, member: Seq<char> },
    Param { index: u32, data_type: Ty },
    Ref { name: Seq<char> },
    Scope { name: Seq<char>, value: Box<Expr>, body: Box<Expr> },
    Tuple { values: Seq<Expr> },
}

#[derive(Debug)]
pub enum Expression {
    BinaryOperation { operation: BinaryOperation, left: Box<Expression>, right: Box<Expression> },
    Call { function: Box<Expression>, arguments: Vec<Expression> },
    GlobalReference { name: String, data_type: DataType },
    I64Literal(i64),
    MemberAccess { left: Box<Expression>, member: String },
    FunctionParam { index: u32, data_type: DataType },
    Reference { name: String },
    Scope { name: String, value: Box<Expression>, body: Box<Expression> },
    Tuple { values: Vec<Expression> },
}

#[derive(Clone, Copy, Debug, PartialEq, Eq, Structural)]
pub enum BinaryOperation {
    Add,
    Divide,
    Multiply,
    Subtract,
}

/// The model of an expression.
pub open spec fn expr_model(e: Expression) -> Expr
    decreases e, 0nat,
{
    match e {
        Expression::BinaryOperation { operation, left, right } => Expr::Binary {
            operation,
            left: Box::new(expr_model(*left)),
            right: Box::new(expr_model(*right)),
        },
        Expression::Call { function, arguments } => Expr::Call {
            function: Box::new(expr_model(*function)),
            arguments: exprs_model(arguments@),
        },
        Expression::GlobalReference { name, data_type } => Expr::GlobalRef {
            name: name@,
            data_type: data_type@,
        },
        Expression::I64Literal(value) => Expr::Int(value),
        Expression::MemberAccess { left, member } => Expr::Member {
            left: Box::new(expr_model(*left)),
            member: member@,
        },
        Expression::FunctionParam { index, data_type } => Expr::Param { index, data_type: data_type@ },
        Expression::Reference { name } => Expr::Ref { name: name@ },
        Expression::Scope { name, value, body } => Expr::Scope {
            name: name@,
            value: Box::new(expr_model(*value)),
            body: Box::new(expr_model(*body)),
        },
        Expression::Tuple { values } => Expr::Tuple { values: exprs_model(values@) },
    }
}

/// The models of a sequence of expressions, element by element.
pub open spec fn exprs_model(s: Seq<Expression>) -> Seq<Expr>
    decreases s, 1nat,
{
    if s.len() == 0 {
        Seq::empty()
    } else {
        exprs_model(s.drop_last()).push(expr_model(s.last()))
    }
}

impl View for Expression {
    type V = Expr;

    open spec fn view(&self) -> Expr {
        expr_model(*self)
    }
}

pub proof fn lemma_exprs_model(s: Seq<Expression>)
    ensures
        exprs_model(s).len() == s.len(),
        forall|i: int| 0 <= i < s.len() ==> #[trigger] exprs_model(s)[i] == s[i]@,
    decreases s.len(),
{
    if s.len() > 0 {
        lemma_exprs_model(s.drop_last());
    }
}

/// The type of an expression, derived from its parts; `None` where it has none:
/// an unresolved name, a call of a non-function, a field that is not there, or
/// an operator applied to non-integers.
pub open spec fn type_of(e: Expr) -> Option<Ty>
    decreases e, 0nat,
{
    match e {
        Expr::Binary { left, right, .. } => match (type_of(*left), type_of(*right)) {
            (Some(Ty::Int), Some(Ty::Int)) => Some(Ty::Int),
            _ => None,
        },
        Expr::Call { function, .. } => match type_of(*function) {
            Some(Ty::Function { ret, .. }) => Some(*ret),
            _ => None,
        },
        Expr::GlobalRef { data_type, .. } => Some(data_type),
        Expr::Int(_) => Some(Ty::Int),
        Expr::Member { left, member } => match type_of(*left) {
            Some(t) => match field_position(t, member) {
                Some(i) => Some(t->elements[i as int]),
                None => None,
            },
            None => None,
        },
        Expr::Param { data_type, .. } => Some(data_type),
        Expr::Ref { .. } => None,
        Expr::Scope { body, .. } => type_of(*body),
        Expr::Tuple { values } => match types_of(values) {
            Some(elements) => Some(Ty::Tuple { elements }),
            None => None,
        },
    }
}

/// The types of all of `s`, if each has one.
pub open spec fn types_of(s: Seq<Expr>) -> Option<Seq<Ty>>
    decreases s, 1nat,
{
    if s.len() == 0 {
        Some(Seq::empty())
    } else {
        match (types_of(s.drop_last()), type_of(s.last())) {
            (Some(ts), Some(t)) => Some(ts.push(t)),
            _ => None,
        }
    }
}

pub proof fn lemma_types_of(s: Seq<Expr>)
    ensures
        types_of(s) is Some <==> forall|i: int| 0 <= i < s.len() ==> #[trigger] type_of(s[i]) is Some,
        types_of(s) matches Some(ts) ==> ts.len() == s.len() && forall|i: int|
            0 <= i < s.len() ==> type_of(s[i]) == Some(#[trigger] ts[i]),
    decreases s.len(),
{
    if s.len() > 0 {
        let p = s.drop_last();
        lemma_types_of(p);
        assert forall|i: int| 0 <= i < p.len() implies p[i] == s[i] by {}
        if forall|i: int| 0 <= i < s.len() ==> #[trigger] type_of(s[i]) is Some {
            assert forall|i: int| 0 <= i < p.len() implies #[trigger] type_of(p[i]) is Some by {
                assert(type_of(s[i]) is Some);
            }
            assert(type_of(s[s.len() - 1]) is Some);
        }
        if types_of(s) is Some {
            assert forall|i: int| 0 <= i < s.len() implies #[trigger] type_of(s[i]) is Some by {
                if i < p.len() {
                    assert(type_of(p[i]) is Some);
                }
            }
        }
    }
}

pub proof fn lemma_types_model(s: Seq<DataType>)
    ensures
        types_model(s).len() == s.len(),
        forall|i: int| 0 <= i < s.len() ==> #[trigger] types_model(s)[i] == s[i]@,
    decreases s.len(),
{
    if s.len() > 0 {
        lemma_types_model(s.drop_last());
    }
}

/// Mathematical model of a [`DataType`].
pub enum Ty {
    Int,
    Function { params: Seq<Ty>, ret: Box<Ty> },
    Tuple { elements: Seq<Ty> },
}

#[derive(Debug)]
pub enum DataType {
    Primitive(PrimitiveDataType),
    Tuple(Vec<DataType>),
}

#[derive(Debug)]
pub enum PrimitiveDataType {
    Function { argument_types: Vec<DataType>, return_type: Box<DataType> },
    I64,
}

/// The model of a data type.
pub open spec fn type_model(t: DataType) -> Ty
    decreases t, 0nat,
{
    match t {
        DataType::Primitive(PrimitiveDataType::I64) => Ty::Int,
        DataType::Primitive(PrimitiveDataType::Function { argument_types, return_type }) => {
            Ty::Function {
                params: types_model(argument_types@),
                ret: Box::new(type_model(*return_type)),
            }
        },
        DataType::Tuple(elements) => Ty::Tuple { elements: types_model(elements@) },
    }
}

/// The models of a sequence of data types, element by element.
pub open spec fn types_model(s: Seq<DataType>) -> Seq<Ty>
    decreases s, 1nat,
{
    if s.len() == 0 {
        Seq::empty()
    } else {
        types_model(s.drop_last()).push(type_model(s.last()))
    }
}

impl View for DataType {
    type V = Ty;

    open spec fn view(&self) -> Ty {
        type_model(*self)
    }
}

impl Expression {
    /// The expression's type, or `None` where it has none (see [`type_of`]).
    pub fn data_type(&self) -> (r: Option<DataType>)
        ensures
            match r {
                Some(t) => type_of(self@) == Some(t@),
                None => type_of(self@) is None,
            },
        decreases self, 0nat,
    {
        match self {
            Expression::BinaryOperation { left, right, .. } => {
                let l = (**left).data_type();
                let r = (**right).data_type();
                match (l, r) {
                    (
                        Some(DataType::Primitive(PrimitiveDataType::I64)),
                        Some(DataType::Primitive(PrimitiveDataType::I64)),
                    ) => Some(DataType::Primitive(PrimitiveDataType::I64)),
                    (l, r) => {
                        proof {
                            match (l, r) {
                                (Some(a), Some(b)) => {
                                    assert(a@ is Int ==> a matches DataType::Primitive(
                                        PrimitiveDataType::I64,
                                    ));
                                    assert(b@ is Int ==> b matches DataType::Primitive(
                                        PrimitiveDataType::I64,
                                    ));
                                },
                                _ => {},
                            }
                        }
                        None
                    },
                }
            },
            Expression::Call { function, .. } => match (**function).data_type() {
                Some(DataType::Primitive(PrimitiveDataType::Function { return_type, .. })) => {
                    Some((*return_type).duplicate())
                },
                _ => None,
            },
            Expression::GlobalReference { data_type, .. } => Some(data_type.duplicate()),
            Expression::I64Literal(_) => Some(DataType::Primitive(PrimitiveDataType::I64)),
            Expression::MemberAccess { left, member } => match (**left).data_type() {
                Some(t) => match t.field_type(member.as_str()) {
                    Some(f) => Some(f.duplicate()),
                    None => None,
                },
                None => None,
            },
            Expression::FunctionParam { data_type, .. } => Some(data_type.duplicate()),
            Expression::Reference { .. } => None,
            Expression::Scope { body, .. } => (**body).data_type(),
            Expression::Tuple { values } => match types_of_values(values) {
                Some(elements) => Some(DataType::Tuple(elements)),
                None => None,
            },
        }
    }

    /// A deep copy of this expression.
    pub fn duplicate(&self) -> (r: Expression)
        ensures
            r@ == self@,
        decreases self, 0nat,
    {
        match self {
            Expression::BinaryOperation { operation, left, right } => {
                Expression::BinaryOperation {
                    operation: *operation,
                    left: Box::new((**left).duplicate()),
                    right: Box::new((**right).duplicate()),
                }
            },
            Expression::Call { function, arguments } => Expression::Call {
                function: Box::new((**function).duplicate()),
                arguments: duplicate_exprs(arguments),
            },
            Expression::GlobalReference { name, data_type } => Expression::GlobalReference {
                name: name.clone(),
                data_type: data_type.duplicate(),
            },
            Expression::I64Literal(value) => Expression::I64Literal(*value),
            Expression::MemberAccess { left, member } => Expression::MemberAccess {
                left: Box::new((**left).duplicate()),
                member: member.clone(),
            },
            Expression::FunctionParam { index, data_type } => Expression::FunctionParam {
                index: *index,
                data_type: data_type.duplicate(),
            },
            Expression::Reference { name } => Expression::Reference { name: name.clone() },
            Expression::Scope { name, value, body } => Expression::Scope {
                name: name.clone(),
                value: Box::new((**value).duplicate()),
                body: Box::new((**body).duplicate()),
            },
            Expression::Tuple { values } => Expression::Tuple { values: duplicate_exprs(values) },
        }
    }
}

/// The types of all of `values`, if each has one.
fn types_of_values(values: &Vec<Expression>) -> (r: Option<Vec<DataType>>)
    ensures
        match r {
            Some(v) => types_of(exprs_model(values@)) == Some(types_model(v@)),
            None => types_of(exprs_model(values@)) is None,
        },
    decreases values, 1nat,
{
    proof {
        lemma_exprs_model(values@);
        lemma_types_of(exprs_model(values@));
    }
    let mut r: Vec<DataType> = Vec::new();
    let mut i: usize = 0;
    while i < values.len()
        invariant
            i <= values.len(),
            r@.len() == i,
            exprs_model(values@).len() == values@.len(),
            forall|j: int| 0 <= j < values@.len() ==> #[trigger] exprs_model(values@)[j] == values@[j]@,
            forall|j: int| 0 <= j < i ==> type_of(values@[j]@) == Some(#[trigger] r@[j]@),
            types_of(exprs_model(values@)) is Some <==> forall|j: int|
                0 <= j < values@.len() ==> #[trigger] type_of(exprs_model(values@)[j]) is Some,
            types_of(exprs_model(values@)) matches Some(ts) ==> ts.len() == values@.len()
                && forall|j: int|
                0 <= j < values@.len() ==> type_of(exprs_model(values@)[j]) == Some(#[trigger] ts[j]),
        decreases values.len() - i,
    {
        assert(decreases_to!(values => values@[i as int]));
        match values[i].data_type() {
            Some(t) => {
                r.push(t);
            },
            None => {
                assert(type_of(exprs_model(values@)[i as int]) is None);
                return None;
            },
        }
        i = i + 1;
    }
    proof {
        lemma_types_model(r@);
        assert forall|j: int| 0 <= j < values@.len() implies #[trigger] type_of(
            exprs_model(values@)[j],
        ) is Some by {
            assert(type_of(values@[j]@) == Some(r@[j]@));
        }
        assert(types_of(exprs_model(values@)) is Some);
        let ts = types_of(exprs_model(values@))->0;
        assert forall|j: int| 0 <= j < ts.len() implies ts[j] == types_model(r@)[j] by {
            assert(type_of(exprs_model(values@)[j]) == Some(ts[j]));
            assert(type_of(values@[j]@) == Some(r@[j]@));
        }
        assert(ts =~= types_model(r@));
    }
    Some(r)
}

/// A deep copy of each expression of `s`.
fn duplicate_exprs(s: &Vec<Expression>) -> (r: Vec<Expression>)
    ensures
        exprs_model(r@) == exprs_model(s@),
    decreases s, 1nat,
{
    let mut r: Vec<Expression> = Vec::new();
    let mut i: usize = 0;
    while i < s.len()
        invariant
            i <= s.len(),
            exprs_model(r@) == exprs_model(s@.subrange(0, i as int)),
        decreases s.len() - i,
    {
        assert(decreases_to!(s => s@[i as int]));
        let e = s[i].duplicate();
        proof {
            let old_r = r@;
            assert(old_r.push(e).drop_last() =~= old_r);
            assert(s@.subrange(0, i + 1).drop_last() =~= s@.subrange(0, i as int));
        }
        r.push(e);
        i = i + 1;
    }
    assert(s@.subrange(0, s.len() as int) =~= s@);
    r
}

impl DataType {
    /// A deep copy of this type.
    pub fn duplicate(&self) -> (r: DataType)
        ensures
            r@ == self@,
        decreases self,
    {
        match self {
            DataType::Primitive(PrimitiveDataType::I64) => DataType::Primitive(PrimitiveDataType::I64),
            DataType::Primitive(PrimitiveDataType::Function { argument_types, return_type }) => {
                let argument_types = duplicate_types(argument_types);
                let return_type = Box::new((**return_type).duplicate());
                DataType::Primitive(PrimitiveDataType::Function { argument_types, return_type })
            },
            DataType::Tuple(elements) => DataType::Tuple(duplicate_types(elements)),
        }
    }

    /// Appends the type's encoding to `out`.
    pub fn mangle(&self, out: &mut String)
        ensures
            final(out)@ == old(out)@ + mangled(self@),
        decreases self, 0nat,
    {
        proof {
            reveal_strlit("{");
            reveal_strlit("}");
        }
        match self {
            DataType::Primitive(t) => t.mangle(out),
            DataType::Tuple(elements) => {
                out.append("{");
                mangle_list(elements, out);
                out.append("}");
                assert(final(out)@ =~= old(out)@ + mangled(self@));
            },
        }
    }

    /// The fields of the type, named and in order: none unless it is a tuple.
    pub fn fields(&self) -> (r: Vec<(String, DataType)>)
        ensures
            match self@ {
                Ty::Tuple { elements } => {
                    &&& r@.len() == elements.len()
                    &&& forall|i: int|
                        0 <= i < r@.len() ==> #[trigger] r@[i].0@ == field_name(i as nat)
                            && r@[i].1@ == elements[i]
                },
                _ => r@.len() == 0,
            },
    {
        let mut r: Vec<(String, DataType)> = Vec::new();
        match self {
            DataType::Primitive(_) => {},
            DataType::Tuple(elements) => {
                proof {
                    lemma_types_model(elements@);
                }
                let mut i: usize = 0;
                while i < elements.len()
                    invariant
                        i <= elements.len(),
                        r@.len() == i,
                        types_model(elements@).len() == elements@.len(),
                        forall|j: int|
                            0 <= j < elements@.len() ==> #[trigger] types_model(elements@)[j]
                                == elements@[j]@,
                        forall|j: int|
                            0 <= j < i ==> #[trigger] r@[j].0@ == field_name(j as nat) && r@[j].1@
                                == types_model(elements@)[j],
                    decreases elements.len() - i,
                {
                    let name = field_name_string(i);
                    let data_type = elements[i].duplicate();
                    r.push((name, data_type));
                    i = i + 1;
                }
                assert(self@ == (Ty::Tuple { elements: types_model(elements@) }));

            },
        }
        r
    }

    /// The type of the field called `name`.
    pub fn field_type(&self, name: &str) -> (r: Option<&DataType>)
        ensures
            match field_position(self@, name@) {
                Some(i) => r is Some && self@ is Tuple && r->0@ == self@->elements[i as int],
                None => r is None,
            },
    {
        match self.field_index(name) {
            Some(i) => match self {
                DataType::Tuple(elements) => {
                    proof {
                        lemma_types_model(elements@);
                        lemma_field_search_bounds(name@, 0, elements.len() as nat);
                    }
                    Some(&elements[i])
                },
                _ => None,
            },
            None => None,
        }
    }

    /// The position of the field called `name`: the first field of that name.
    pub fn field_index(&self, name: &str) -> (r: Option<usize>)
        ensures
            r matches Some(i) ==> field_position(self@, name@) == Some(i as nat),
            r is None ==> field_position(self@, name@) is None,
    {
        match self {
            DataType::Primitive(_) => None,
            DataType::Tuple(elements) => {
                proof {
                    lemma_types_model(elements@);
                }
                let wanted = name.to_owned();
                let n = elements.len();
                let mut i: usize = 0;
                while i < n
                    invariant
                        i <= n,
                        n == types_model(elements@).len(),
                        self@ == (Ty::Tuple { elements: types_model(elements@) }),
                        wanted@ == name@,
                        field_search(name@, 0, n as nat) == field_search(name@, i as nat, n as nat),
                    decreases n - i,
                {
                    let candidate = field_name_string(i);
                    if candidate == wanted {
                        return Some(i);
                    }
                    i = i + 1;
                }
                None
            },
        }
    }

    /// Whether the two types are the same.
    pub fn same_as(&self, other: &DataType) -> (r: bool)
        ensures
            r == (self@ == other@),
        decreases self, 0nat,
    {
        match (self, other) {
            (DataType::Primitive(PrimitiveDataType::I64), DataType::Primitive(PrimitiveDataType::I64)) => true,
            (
                DataType::Primitive(PrimitiveDataType::Function { argument_types: a, return_type: r }),
                DataType::Primitive(PrimitiveDataType::Function { argument_types: b, return_type: s }),
            ) => same_types(a, b) && (**r).same_as(&**s),
            (DataType::Tuple(a), DataType::Tuple(b)) => same_types(a, b),
            _ => false,
        }
    }

    pub fn is_primitive(&self) -> (r: bool)
        ensures
            r == is_primitive(self@),
    {
        matches!(self, DataType::Primitive(_))
    }
}

impl PrimitiveDataType {
    /// Appends the encoding of the primitive type to `out`.
    fn mangle(&self, out: &mut String)
        ensures
            final(out)@ == old(out)@ + mangled(DataType::Primitive(*self)@),
        decreases self, 0nat,
    {
        proof {
            reveal_strlit("I64");
            reveal_strlit("(");
            reveal_strlit("):");
        }
        match self {
            PrimitiveDataType::I64 => {
                out.append("I64");
            },
            PrimitiveDataType::Function { argument_types, return_type } => {
                out.append("(");
                mangle_list(argument_types, out);
                out.append("):");
                (**return_type).mangle(out);
                assert(final(out)@ =~= old(out)@ + mangled(DataType::Primitive(*self)@));
            },
        }
    }
}

/// Appends the encodings of the types of `v` to `out`, separated by commas.
fn mangle_list(v: &Vec<DataType>, out: &mut String)
    ensures
        final(out)@ == old(out)@ + mangled_list(types_model(v@)),
    decreases v, 1nat,
{
    proof {
        reveal_strlit(",");
    }
    let ghost start = out@;
    let mut i: usize = 0;
    while i < v.len()
        invariant
            i <= v.len(),
            out@ == start + mangled_list(types_model(v@.subrange(0, i as int))),
        decreases v.len() - i,
    {
        assert(decreases_to!(v => v@[i as int]));
        proof {
            reveal_strlit(",");
            let next = v@.subrange(0, i + 1);
            assert(next.drop_last() =~= v@.subrange(0, i as int));
            assert(types_model(next).drop_last() =~= types_model(v@.subrange(0, i as int)));
        }
        let ghost before = out@;
        if i > 0 {
            out.append(",");
        }
        let ghost middle = out@;
        v[i].mangle(out);
        proof {
            let next = v@.subrange(0, i + 1);
            lemma_types_model(next);
            lemma_types_model(v@.subrange(0, i as int));
            let ts = types_model(next);
            assert(ts.last() == v@[i as int]@);
            if i == 0 {
                assert(out@ =~= start + mangled_list(ts));
            } else {
                assert(mangled_list(ts) == mangled_list(ts.drop_last()) + seq![','] + mangled(
                    ts.last(),
                ));
                assert(middle == before + seq![',']);
                assert(before == start + mangled_list(ts.drop_last()));
                assert(out@ =~= start + mangled_list(ts));
            }
        }
        i = i + 1;
    }
    assert(v@.subrange(0, v.len() as int) =~= v@);
}

/// A deep copy of each type of `s`.
pub fn duplicate_types(s: &Vec<DataType>) -> (r: Vec<DataType>)
    ensures
        types_model(r@) == types_model(s@),
    decreases s,
{
    let mut r: Vec<DataType> = Vec::new();
    let mut i: usize = 0;
    while i < s.len()
        invariant
            i <= s.len(),
            types_model(r@) == types_model(s@.subrange(0, i as int)),
        decreases s.len() - i,
    {
        assert(decreases_to!(s => s@[i as int]));
        let t = s[i].duplicate();
        proof {
            let old_r = r@;
            assert(old_r.push(t).drop_last() =~= old_r);
            assert(s@.subrange(0, i + 1).drop_last() =~= s@.subrange(0, i as int));
        }
        r.push(t);
        i = i + 1;
    }
    assert(s@.subrange(0, s.len() as int) =~= s@);
    r
}

/// Whether two lists of types are the same, element by element.
fn same_types(a: &Vec<DataType>, b: &Vec<DataType>) -> (r: bool)
    ensures
        r == (types_model(a@) == types_model(b@)),
    decreases a, 1nat,
{
    proof {
        lemma_types_model(a@);
        lemma_types_model(b@);
    }
    if a.len() != b.len() {
        return false;
    }
    let mut i: usize = 0;
    while i < a.len()
        invariant
            i <= a.len(),
            a@.len() == b@.len(),
            types_model(a@).len() == a@.len(),
            types_model(b@).len() == b@.len(),
            forall|j: int| 0 <= j < a@.len() ==> #[trigger] types_model(a@)[j] == a@[j]@,
            forall|j: int| 0 <= j < b@.len() ==> #[trigger] types_model(b@)[j] == b@[j]@,
            forall|j: int| 0 <= j < i ==> a@[j]@ == b@[j]@,
        decreases a.len() - i,
    {
        assert(decreases_to!(a => a@[i as int]));
        if !a[i].same_as(&b[i]) {
            assert(types_model(a@)[i as int] != types_model(b@)[i as int]);
            return false;
        }
        i = i + 1;
    }
    assert(types_model(a@) =~= types_model(b@));
    true
}

impl Clone for DataType {
    fn clone(&self) -> (r: DataType)
        ensures
            r@ == self@,
    {
        self.duplicate()
    }
}

/// Whether a type is carried by value: an integer or a function pointer.
pub open spec fn is_primitive(t: Ty) -> bool {
    !(t is Tuple)
}

/// The digit that stands for `d`, for `d < 10`.
pub open spec fn digit_char(d: nat) -> char {
    if d == 0 {
        '0'
    } else if d == 1 {
        '1'
    } else if d == 2 {
        '2'
    } else if d == 3 {
        '3'
    } else if d == 4 {
        '4'
    } else if d == 5 {
        '5'
    } else if d == 6 {
        '6'
    } else if d == 7 {
        '7'
    } else if d == 8 {
        '8'
    } else {
        '9'
    }
}

/// The decimal writing of `n`, without leading zeros.
pub open spec fn decimal(n: nat) -> Seq<char>
    decreases n,
{
    if n < 10 {
        seq![digit_char(n)]
    } else {
        decimal(n / 10).push(digit_char(n % 10))
    }
}

/// The name of a tuple's field at position `i`: `elem_` and `i` in decimal.
pub open spec fn field_name(i: nat) -> Seq<char> {
    seq!['e', 'l', 'e', 'm', '_'] + decimal(i)
}

/// The first position in `i..n` whose field name is `name`.
pub open spec fn field_search(name: Seq<char>, i: nat, n: nat) -> Option<nat>
    decreases n - i,
{
    if i >= n {
        None
    } else if field_name(i) == name {
        Some(i)
    } else {
        field_search(name, i + 1, n)
    }
}

pub proof fn lemma_field_search_bounds(name: Seq<char>, i: nat, n: nat)
    ensures
        field_search(name, i, n) matches Some(k) ==> i <= k < n,
    decreases n - i,
{
    if i < n {
        lemma_field_search_bounds(name, i + 1, n);
    }
}

/// The position of the field called `name` in a type: only tuples have fields.
pub open spec fn field_position(t: Ty, name: Seq<char>) -> Option<nat> {
    match t {
        Ty::Tuple { elements } => field_search(name, 0, elements.len()),
        _ => None,
    }
}

/// The stable textual encoding of a type, used to name helpers made per type.
pub open spec fn mangled(t: Ty) -> Seq<char>
    decreases t, 0nat,
{
    match t {
        Ty::Int => seq!['I', '6', '4'],
        Ty::Function { params, ret } => seq!['('] + mangled_list(params) + seq![')', ':'] + mangled(
            *ret,
        ),
        Ty::Tuple { elements } => seq!['{'] + mangled_list(elements) + seq!['}'],
    }
}

/// The encodings of `s`, separated by commas.
pub open spec fn mangled_list(s: Seq<Ty>) -> Seq<char>
    decreases s, 1nat,
{
    if s.len() == 0 {
        Seq::empty()
    } else if s.len() == 1 {
        mangled(s[0])
    } else {
        mangled_list(s.drop_last()) + seq![','] + mangled(s.last())
    }
}

fn digit_str(d: usize) -> (r: &'static str)
    requires
        d < 10,
    ensures
        r@ == seq![digit_char(d as nat)],
{
    proof {
        reveal_strlit("0");
        reveal_strlit("1");
        reveal_strlit("2");
        reveal_strlit("3");
        reveal_strlit("4");
        reveal_strlit("5");
        reveal_strlit("6");
        reveal_strlit("7");
        reveal_strlit("8");
        reveal_strlit("9");
    }
    if d == 0 {
        "0"
    } else if d == 1 {
        "1"
    } else if d == 2 {
        "2"
    } else if d == 3 {
        "3"
    } else if d == 4 {
        "4"
    } else if d == 5 {
        "5"
    } else if d == 6 {
        "6"
    } else if d == 7 {
        "7"
    } else if d == 8 {
        "8"
    } else {
        "9"
    }
}

/// `n` written in decimal.
pub fn decimal_string(n: usize) -> (r: String)
    ensures
        r@ == decimal(n as nat),
    decreases n,
{
    if n < 10 {
        digit_str(n).to_owned()
    } else {
        let mut r = decimal_string(n / 10);
        r.append(digit_str(n % 10));
        r
    }
}

/// The name of the tuple field at position `i`.
pub fn field_name_string(i: usize) -> (r: String)
    ensures
        r@ == field_name(i as nat),
{
    proof {
        reveal_strlit("elem_");
    }
    let mut r = "elem_".to_owned();
    let digits = decimal_string(i);
    r.append(digits.as_str());
    r
}

/// Mathematical model of a [`Global`].
pub struct GlobalModel {
    pub arguments: Seq<(Seq<char>, Ty)>,
    pub return_type: Ty,
    pub body: Expr,
}

/// A module-level definition: a constant when it has no arguments, else a function.
#[derive(Debug)]
pub struct Global {
    pub arguments: Vec<(String, DataType)>,
    pub return_type: DataType,
    pub body: Expression,
}

/// The models of a list of named, typed arguments.
pub open spec fn arguments_model(s: Seq<(String, DataType)>) -> Seq<(Seq<char>, Ty)> {
    s.map_values(|a: (String, DataType)| (a.0@, a.1@))
}

/// A deep copy of a list of named, typed arguments.
pub fn duplicate_arguments(s: &Vec<(String, DataType)>) -> (r: Vec<(String, DataType)>)
    ensures
        arguments_model(r@) == arguments_model(s@),
{
    let mut r: Vec<(String, DataType)> = Vec::new();
    let mut i: usize = 0;
    while i < s.len()
        invariant
            i <= s.len(),
            r@.len() == i,
            forall|j: int| 0 <= j < i ==> #[trigger] r@[j].0@ == s@[j].0@ && r@[j].1@ == s@[j].1@,
        decreases s.len() - i,
    {
        r.push((s[i].0.clone(), s[i].1.duplicate()));
        i = i + 1;
    }
    assert(arguments_model(r@) =~= arguments_model(s@));
    r
}

impl View for Global {
    type V = GlobalModel;

    open spec fn view(&self) -> GlobalModel {
        GlobalModel {
            arguments: arguments_model(self.arguments@),
            return_type: self.return_type@,
            body: self.body@,
        }
    }
}

/// The globals of a compilation unit, each under its name. Names are unique
/// (see [`Module::names_unique`]); the order is the order in which every phase
/// visits them.
#[derive(Debug)]
pub struct Module {
    pub globals: Vec<(String, Global)>,
}

impl View for Module {
    type V = Seq<(Seq<char>, GlobalModel)>;

    open spec fn view(&self) -> Seq<(Seq<char>, GlobalModel)> {
        self.globals@.map_values(|g: (String, Global)| (g.0@, g.1@))
    }
}

impl Module {
    pub open spec fn names_unique(&self) -> bool {
        forall|i: int, j: int|
            0 <= i < j < self@.len() ==> #[trigger] self@[i].0 != #[trigger] self@[j].0
    }

    pub fn new() -> (r: Module)
        ensures
            r@.len() == 0,
            r.names_unique(),
    {
        Module { globals: Vec::new() }
    }

    /// Defines `name` as `global`: a global of that name is replaced in place,
    /// else the new one comes last.
    pub fn insert(&mut self, name: String, global: Global)
        requires
            old(self).names_unique(),
        ensures
            final(self).names_unique(),
            match old(self).position(name@) {
                Some(i) => final(self)@ == old(self)@.update(i as int, (name@, global@)),
                None => final(self)@ == old(self)@.push((name@, global@)),
            },
    {
        let mut i: usize = 0;
        while i < self.globals.len()
            invariant
                i <= self.globals.len(),
                self.globals == old(self).globals,
                self.names_unique(),
                forall|j: int| 0 <= j < i ==> self@[j].0 != name@,
            decreases self.globals.len() - i,
        {
            if self.globals[i].0 == name {
                let ghost before = self@;
                self.globals.set(i, (name, global));
                proof {
                    assert(old(self).position(name@) == Some(i as nat)) by {
                        old(self).lemma_position(name@, i as nat);
                    }
                    assert(self@ =~= before.update(i as int, (name@, global@)));
                }
                return;
            }
            i = i + 1;
        }
        proof {
            old(self).lemma_position_none(name@);
        }
        let ghost before = self@;
        self.globals.push((name, global));
        assert(self@ =~= before.push((name@, global@)));
    }

    /// Where the global called `name` stands.
    pub open spec fn position(&self, name: Seq<char>) -> Option<nat> {
        if exists|i: int| 0 <= i < self@.len() && self@[i].0 == name {
            Some((choose|i: int| 0 <= i < self@.len() && self@[i].0 == name) as nat)
        } else {
            None
        }
    }

    proof fn lemma_position(&self, name: Seq<char>, i: nat)
        requires
            self.names_unique(),
            i < self@.len(),
            self@[i as int].0 == name,
        ensures
            self.position(name) == Some(i),
    {
        let k = choose|k: int| 0 <= k < self@.len() && self@[k].0 == name;
        if k != i {
            if k < i {
                assert(self@[k].0 != self@[i as int].0);
            } else {
                assert(self@[i as int].0 != self@[k].0);
            }
        }
    }

    proof fn lemma_position_none(&self, name: Seq<char>)
        requires
            forall|j: int| 0 <= j < self@.len() ==> self@[j].0 != name,
        ensures
            self.position(name) is None,
    {
    }
}

} // verus!
