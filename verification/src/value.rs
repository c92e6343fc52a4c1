//! The tagged runtime value of the language and its rules: coercion to
//! integers, truthiness, equality, ordering, arithmetic and rendering.
//!
//! Every contract in the engine speaks about values through [`Val`], the
//! mathematical shape of a [`Value`]: integers become `int`, text becomes
//! `Seq<char>`, arrays become sequences of models.

use vstd::prelude::*;

verus! {

broadcast use vstd::std_specs::vec::group_vec_axioms;

/// Mathematical model of a runtime value.
pub enum Val {
    Int(int),
    Text(Seq<char>),
    Arr(Seq<Val>),
    Pat(Seq<char>),
    Nil,
}

/// A runtime value: integer, text, array, regular-expression pattern
/// text, or the absence marker.
pub enum Value {
    Int(i64),
    Text(Vec<char>),
    Arr(Vec<Value>),
    Pat(Vec<char>),
    Nil,
}

impl Value {
    /// The mathematical shape of this value.
    pub open spec fn model(self) -> Val
        decreases self,
    {
        match self {
            Value::Int(n) => Val::Int(n as int),
            Value::Text(s) => Val::Text(s@),
            Value::Arr(a) => Val::Arr(models_of(a@)),
            Value::Pat(p) => Val::Pat(p@),
            Value::Nil => Val::Nil,
        }
    }
}

/// The models of a sequence of values, element by element.
pub open spec fn models_of(s: Seq<Value>) -> Seq<Val>
    decreases s,
{
    if s.len() == 0 {
        Seq::empty()
    } else {
        seq![s[0].model()] + models_of(s.subrange(1, s.len() as int))
    }
}

/// `models_of` maps the sequence element by element.
pub broadcast proof fn lemma_models_of(s: Seq<Value>)
    ensures
        (#[trigger] models_of(s)).len() == s.len(),
        forall|i: int| 0 <= i < s.len() ==> models_of(s)[i] == s[i].model(),
    decreases s.len(),
{
    if s.len() > 0 {
        lemma_models_of(s.subrange(1, s.len() as int));
    }
}

impl View for Value {
    type V = Val;

    open spec fn view(&self) -> Val {
        self.model()
    }
}

// ---------------------------------------------------------------------
// Integer coercion
// ---------------------------------------------------------------------

/// Decimal digit.
pub open spec fn is_digit(c: char) -> bool {
    '0' <= c && c <= '9'
}

/// Numeric value of a decimal digit.
pub open spec fn digit_val(c: char) -> int {
    c as u32 - 48
}

/// Value of a run of decimal digits, most significant first.
pub open spec fn digits_val(s: Seq<char>) -> int
    decreases s.len(),
{
    if s.len() == 0 {
        0
    } else {
        digits_val(s.drop_last()) * 10 + digit_val(s.last())
    }
}

/// Every character is a decimal digit.
pub open spec fn all_digits(s: Seq<char>) -> bool {
    forall|i: int| 0 <= i < s.len() ==> is_digit(#[trigger] s[i])
}

/// The whitespace characters stripped around numeric text.
pub open spec fn is_space(c: char) -> bool {
    c == ' ' || c == '\t' || c == '\n' || c == '\r'
}

/// Text with leading whitespace removed.
pub open spec fn trim_front(s: Seq<char>) -> Seq<char>
    decreases s.len(),
{
    if s.len() > 0 && is_space(s[0]) {
        trim_front(s.subrange(1, s.len() as int))
    } else {
        s
    }
}

/// Text with trailing whitespace removed.
pub open spec fn trim_back(s: Seq<char>) -> Seq<char>
    decreases s.len(),
{
    if s.len() > 0 && is_space(s.last()) {
        trim_back(s.drop_last())
    } else {
        s
    }
}

/// Text with whitespace removed at both ends.
pub open spec fn trimmed(s: Seq<char>) -> Seq<char> {
    trim_back(trim_front(s))
}

/// The digit run of trimmed numeric text: everything after an optional
/// single leading sign.
pub open spec fn numeric_body(t: Seq<char>) -> Seq<char> {
    if t.len() > 0 && (t[0] == '-' || t[0] == '+') {
        t.subrange(1, t.len() as int)
    } else {
        t
    }
}

/// Whether the text is, after trimming, an optional sign followed by one
/// or more decimal digits and nothing else.
pub open spec fn is_numeric_text(s: Seq<char>) -> bool {
    numeric_body(trimmed(s)).len() > 0 && all_digits(numeric_body(trimmed(s)))
}

/// The exact integer a piece of numeric text denotes; non-numeric text
/// denotes zero.
pub open spec fn int_of_text(s: Seq<char>) -> int {
    if is_numeric_text(s) {
        if trimmed(s)[0] == '-' {
            -digits_val(numeric_body(trimmed(s)))
        } else {
            digits_val(numeric_body(trimmed(s)))
        }
    } else {
        0
    }
}

/// A coercion that leaves the signed 64-bit range falls back to zero.
pub open spec fn clip64(x: int) -> int {
    if i64::MIN <= x <= i64::MAX {
        x
    } else {
        0
    }
}

/// The integer a value coerces to for arithmetic: integers stand for
/// themselves, text is parsed, everything else coerces to zero.
pub open spec fn to_int_model(v: Val) -> int {
    match v {
        Val::Int(n) => n,
        Val::Text(s) => clip64(int_of_text(s)),
        _ => 0,
    }
}

/// A digit run never denotes a negative number.
pub proof fn lemma_digits_val_nonneg(s: Seq<char>)
    requires
        all_digits(s),
    ensures
        digits_val(s) >= 0,
    decreases s.len(),
{
    if s.len() > 0 {
        assert(all_digits(s.drop_last())) by {
            assert(forall|i: int|
                0 <= i < s.len() - 1 ==> s.drop_last()[i] == #[trigger] s[i]);
        }
        lemma_digits_val_nonneg(s.drop_last());
        assert(is_digit(s.last()));
    }
}

pub(crate) proof fn lemma_trim_front_at(s: Seq<char>, k: int)
    requires
        0 <= k <= s.len(),
        forall|j: int| 0 <= j < k ==> is_space(#[trigger] s[j]),
        k == s.len() || !is_space(s[k]),
    ensures
        trim_front(s) == s.subrange(k, s.len() as int),
    decreases k,
{
    if k == 0 {
        assert(s.subrange(0, s.len() as int) =~= s);
    } else {
        let t = s.subrange(1, s.len() as int);
        lemma_trim_front_at(t, k - 1);
        assert(t.subrange(k - 1, t.len() as int) =~= s.subrange(k, s.len() as int));
    }
}

pub(crate) proof fn lemma_trim_back_at(s: Seq<char>, k: int)
    requires
        0 <= k <= s.len(),
        forall|j: int| k <= j < s.len() ==> is_space(#[trigger] s[j]),
        k == 0 || !is_space(s[k - 1]),
    ensures
        trim_back(s) == s.subrange(0, k),
    decreases s.len(),
{
    if k < s.len() {
        lemma_trim_back_at(s.drop_last(), k);
        assert(s.drop_last().subrange(0, k) =~= s.subrange(0, k));
    } else {
        assert(s.subrange(0, s.len() as int) =~= s);
    }
}

/// Parse a whole piece of numeric text into a machine integer, with the
/// out-of-range fallback of [`clip64`].
pub fn parse_int(s: &Vec<char>) -> (r: i64)
    ensures
        r as int == clip64(int_of_text(s@)),
{
    let n = s.len();
    let mut lo: usize = 0;
    while lo < n && is_space_char(s[lo])
        invariant
            n == s@.len(),
            lo <= n,
            forall|j: int| 0 <= j < lo ==> is_space(#[trigger] s@[j]),
        decreases n - lo,
    {
        lo = lo + 1;
    }
    let mut hi: usize = n;
    while hi > lo && is_space_char(s[hi - 1])
        invariant
            n == s@.len(),
            lo <= hi <= n,
            forall|j: int| hi <= j < n ==> is_space(#[trigger] s@[j]),
        decreases hi,
    {
        hi = hi - 1;
    }
    proof {
        lemma_trim_front_at(s@, lo as int);
        let t = s@.subrange(lo as int, n as int);
        lemma_trim_back_at(t, hi - lo);
        assert(t.subrange(0, hi - lo) =~= s@.subrange(lo as int, hi as int));
        assert(trimmed(s@) == s@.subrange(lo as int, hi as int));
    }
    let ghost t = s@.subrange(lo as int, hi as int);
    if lo == hi {
        proof {
            assert(numeric_body(t).len() == 0);
        }
        return 0;
    }
    let neg = s[lo] == '-';
    let dlo: usize = if neg || s[lo] == '+' { lo + 1 } else { lo };
    let ghost body = s@.subrange(dlo as int, hi as int);
    proof {
        assert(numeric_body(t) =~= body);
    }
    if dlo == hi {
        proof {
            assert(body.len() == 0);
        }
        return 0;
    }
    let mut acc: u64 = 0;
    let mut ovf = false;
    let mut i: usize = dlo;
    while i < hi
        invariant
            n == s@.len(),
            lo <= dlo <= i <= hi <= n,
            t == s@.subrange(lo as int, hi as int),
            trimmed(s@) == t,
            numeric_body(t) == body,
            body == s@.subrange(dlo as int, hi as int),
            all_digits(body.subrange(0, i - dlo)),
            !ovf ==> acc as int == digits_val(body.subrange(0, i - dlo)),
            ovf ==> digits_val(body.subrange(0, i - dlo)) > u64::MAX as int,
        decreases hi - i,
    {
        let c = s[i];
        if !(c >= '0' && c <= '9') {
            proof {
                assert(!is_digit(body[i - dlo]));
                assert(!all_digits(body));
                assert(!is_numeric_text(s@));
            }
            return 0;
        }
        let d: u64 = (c as u32 - 48) as u64;
        proof {
            assert(body.subrange(0, i + 1 - dlo).drop_last() =~= body.subrange(0, i - dlo));
            assert(body.subrange(0, i + 1 - dlo).last() == s@[i as int]);
            lemma_digits_val_nonneg(body.subrange(0, i - dlo));
        }
        let next = match acc.checked_mul(10) {
            Some(m) => m.checked_add(d),
            None => None,
        };
        match next {
            Some(m) => {
                if !ovf {
                    acc = m;
                } else {
                    proof {
                        let prev = digits_val(body.subrange(0, i - dlo));
                        assert(prev * 10 + digit_val(s@[i as int]) > u64::MAX as int);
                    }
                }
            }
            None => {
                proof {
                    let prev = digits_val(body.subrange(0, i - dlo));
                    if !ovf {
                        assert(prev * 10 + digit_val(s@[i as int]) > u64::MAX as int);
                    } else {
                        assert(prev * 10 + digit_val(s@[i as int]) > u64::MAX as int);
                    }
                }
                ovf = true;
            }
        }
        i = i + 1;
        proof {
            assert(all_digits(body.subrange(0, i - dlo)));
        }
    }
    proof {
        assert(body.subrange(0, hi - dlo) =~= body);
        assert(is_numeric_text(s@));
        lemma_digits_val_nonneg(body);
    }
    let ghost mag = digits_val(body);
    if ovf {
        proof {
            assert(mag > i64::MAX as int);
            assert(int_of_text(s@) == mag || int_of_text(s@) == -mag);
        }
        return 0;
    }
    if neg {
        proof {
            assert(t[0] == '-');
            assert(int_of_text(s@) == -mag);
        }
        if acc <= 9223372036854775807u64 {
            -(acc as i64)
        } else if acc == 9223372036854775808u64 {
            i64::MIN
        } else {
            0
        }
    } else {
        proof {
            assert(t.len() > 0 && t[0] != '-');
            assert(int_of_text(s@) == mag);
        }
        if acc <= 9223372036854775807u64 {
            acc as i64
        } else {
            0
        }
    }
}

/// Whitespace test used by the parser.
fn is_space_char(c: char) -> (r: bool)
    ensures
        r == is_space(c),
{
    c == ' ' || c == '\t' || c == '\n' || c == '\r'
}

impl Value {
    /// Coerce this value to an integer by the arithmetic rules.
    pub fn to_int(&self) -> (r: i64)
        ensures
            r as int == to_int_model(self@),
    {
        match self {
            Value::Int(n) => *n,
            Value::Text(s) => parse_int(s),
            _ => 0,
        }
    }
}

// ---------------------------------------------------------------------
// Arithmetic
// ---------------------------------------------------------------------

/// Absolute value.
pub open spec fn int_abs(x: int) -> int {
    if x < 0 {
        -x
    } else {
        x
    }
}

/// Quotient of truncating division; division by zero falls back to zero.
pub open spec fn trunc_div(a: int, b: int) -> int {
    if b == 0 {
        0
    } else {
        let q = int_abs(a) / int_abs(b);
        if (a < 0) == (b < 0) {
            q
        } else {
            -q
        }
    }
}

/// Remainder of truncating division, whose sign follows the dividend;
/// a zero divisor falls back to zero.
pub open spec fn trunc_rem(a: int, b: int) -> int {
    if b == 0 {
        0
    } else {
        let r = int_abs(a) % int_abs(b);
        if a < 0 {
            -r
        } else {
            r
        }
    }
}

/// What addition returns: exact integer arithmetic on the coerced
/// operands, clipped to the 64-bit range.
pub open spec fn add_model(a: Val, b: Val) -> Val {
    Val::Int(clip64(to_int_model(a) + to_int_model(b)))
}

/// What subtraction returns.
pub open spec fn sub_model(a: Val, b: Val) -> Val {
    Val::Int(clip64(to_int_model(a) - to_int_model(b)))
}

/// What multiplication returns.
pub open spec fn mul_model(a: Val, b: Val) -> Val {
    Val::Int(clip64(to_int_model(a) * to_int_model(b)))
}

/// What division returns: truncating division of the coerced operands.
pub open spec fn div_model(a: Val, b: Val) -> Val {
    Val::Int(clip64(trunc_div(to_int_model(a), to_int_model(b))))
}

/// What the remainder operator returns: the remainder of truncating
/// division of the coerced operands.
pub open spec fn rem_model(a: Val, b: Val) -> Val {
    Val::Int(clip64(trunc_rem(to_int_model(a), to_int_model(b))))
}

/// For a nonzero divisor, the remainder is the mathematical remainder of
/// truncating division: dividend minus divisor times truncating quotient,
/// strictly smaller than the divisor in magnitude, and either zero or of
/// the dividend's sign. Division and remainder by zero fall back to zero
/// rather than failing.
pub proof fn lemma_remainder_truncating(a: int, b: int)
    requires
        b != 0,
    ensures
        trunc_rem(a, b) == a - b * trunc_div(a, b),
        int_abs(trunc_rem(a, b)) < int_abs(b),
        trunc_rem(a, b) == 0 || ((trunc_rem(a, b) < 0) <==> (a < 0)),
        trunc_div(a, 0) == 0 && trunc_rem(a, 0) == 0,
{
    let x = int_abs(a);
    let d = int_abs(b);
    vstd::arithmetic::div_mod::lemma_fundamental_div_mod(x, d);
    vstd::arithmetic::div_mod::lemma_mod_bound(x, d);
    vstd::arithmetic::div_mod::lemma_div_pos_is_pos(x, d);
    let q = x / d;
    let r = x % d;
    assert(x == d * q + r);
    if a >= 0 && b > 0 {
        assert(b * trunc_div(a, b) == d * q) by (nonlinear_arith)
            requires b == d && trunc_div(a, b) == q;
    } else if a >= 0 && b < 0 {
        assert(b * trunc_div(a, b) == d * q) by (nonlinear_arith)
            requires b == -d && trunc_div(a, b) == -q;
    } else if a < 0 && b > 0 {
        assert(b * trunc_div(a, b) == -(d * q)) by (nonlinear_arith)
            requires b == d && trunc_div(a, b) == -q;
    } else {
        assert(b * trunc_div(a, b) == -(d * q)) by (nonlinear_arith)
            requires b == -d && trunc_div(a, b) == q;
    }
}

impl Value {
    /// Add two values by the integer-coercion arithmetic rules.
    pub fn add(&self, other: &Value) -> (r: Value)
        ensures
            r@ == add_model(self@, other@),
    {
        let x = self.to_int();
        let y = other.to_int();
        match x.checked_add(y) {
            Some(v) => Value::Int(v),
            None => Value::Int(0),
        }
    }

    /// Subtract `other` from this value.
    pub fn subtract(&self, other: &Value) -> (r: Value)
        ensures
            r@ == sub_model(self@, other@),
    {
        let x = self.to_int();
        let y = other.to_int();
        match x.checked_sub(y) {
            Some(v) => Value::Int(v),
            None => Value::Int(0),
        }
    }

    /// Multiply two values.
    pub fn multiply(&self, other: &Value) -> (r: Value)
        ensures
            r@ == mul_model(self@, other@),
    {
        let x = self.to_int();
        let y = other.to_int();
        match x.checked_mul(y) {
            Some(v) => Value::Int(v),
            None => Value::Int(0),
        }
    }

    /// Divide this value by `other` with truncating division; a zero
    /// divisor yields integer zero instead of failing.
    pub fn divide(&self, other: &Value) -> (r: Value)
        ensures
            r@ == div_model(self@, other@),
    {
        let x = self.to_int();
        let y = other.to_int();
        match x.checked_div(y) {
            Some(v) => Value::Int(v),
            None => Value::Int(0),
        }
    }

    /// The remainder of truncating division; a zero divisor yields
    /// integer zero instead of failing.
    pub fn modulo(&self, other: &Value) -> (r: Value)
        ensures
            r@ == rem_model(self@, other@),
    {
        let x = self.to_int();
        let y = other.to_int();
        proof {
            let a = x as int;
            let b = y as int;
            if b != 0 {
                vstd::arithmetic::div_mod::lemma_mod_bound(int_abs(a), int_abs(b));
                if a == 0 {
                    vstd::arithmetic::div_mod::lemma_small_mod(0nat, int_abs(b) as nat);
                }
                if x == i64::MIN && y == -1 {
                    assert(int_abs(a) % int_abs(b) == 0) by {
                        vstd::arithmetic::div_mod::lemma_mod_bound(int_abs(a), 1);
                    }
                }
            }
        }
        match x.checked_rem(y) {
            Some(v) => Value::Int(v),
            None => Value::Int(0),
        }
    }
}

/// Truthiness: `Nil` and integer zero are falsy, and so are empty text,
/// empty arrays and empty pattern text; everything else is truthy.
pub open spec fn truthy(v: Val) -> bool {
    match v {
        Val::Int(n) => n != 0,
        Val::Text(s) => s.len() > 0,
        Val::Arr(a) => a.len() > 0,
        Val::Pat(p) => p.len() > 0,
        Val::Nil => false,
    }
}

impl Value {
    /// Whether this value selects the truthy branch.
    pub fn is_truthy(&self) -> (r: bool)
        ensures
            r == truthy(self@),
    {
        match self {
            Value::Int(n) => *n != 0,
            Value::Text(s) => s.len() > 0,
            Value::Arr(a) => a.len() > 0,
            Value::Pat(p) => p.len() > 0,
            Value::Nil => false,
        }
    }
}

impl Clone for Value {
    /// Values are copied structurally: the copy has the same model, so
    /// two bindings of "the same" array never alias.
    fn clone(&self) -> (r: Self)
        ensures
            r@ == self@,
        decreases self,
    {
        match self {
            Value::Int(n) => Value::Int(*n),
            Value::Text(s) => {
                let mut t: Vec<char> = Vec::new();
                let mut i: usize = 0;
                while i < s.len()
                    invariant
                        i <= s@.len(),
                        t@ == s@.subrange(0, i as int),
                    decreases s@.len() - i,
                {
                    t.push(s[i]);
                    i = i + 1;
                    proof {
                        assert(t@ =~= s@.subrange(0, i as int));
                    }
                }
                proof {
                    assert(t@ =~= s@);
                }
                Value::Text(t)
            }
            Value::Arr(a) => {
                let mut b: Vec<Value> = Vec::new();
                let mut i: usize = 0;
                while i < a.len()
                    invariant
                        *self == Value::Arr(*a),
                        i <= a@.len(),
                        b@.len() == i,
                        forall|j: int| 0 <= j < i ==> b@[j].model() == a@[j].model(),
                    decreases a@.len() - i,
                {
                    proof {
                        assert(decreases_to!(*self => self->Arr_0));
                        assert(decreases_to!(self->Arr_0 => self->Arr_0@));
                        assert(decreases_to!(self->Arr_0@ => self->Arr_0@[i as int]));
                        assert(decreases_to!(*self => a@[i as int]));
                    }
                    let e = a[i].clone();
                    b.push(e);
                    i = i + 1;
                }
                let r = Value::Arr(b);
                proof {
                    broadcast use lemma_models_of;

                    assert(models_of(b@) =~= models_of(a@));
                }
                r
            }
            Value::Pat(p) => {
                let mut t: Vec<char> = Vec::new();
                let mut i: usize = 0;
                while i < p.len()
                    invariant
                        i <= p@.len(),
                        t@ == p@.subrange(0, i as int),
                    decreases p@.len() - i,
                {
                    t.push(p[i]);
                    i = i + 1;
                    proof {
                        assert(t@ =~= p@.subrange(0, i as int));
                    }
                }
                proof {
                    assert(t@ =~= p@);
                }
                Value::Pat(t)
            }
            Value::Nil => Value::Nil,
        }
    }
}

// ---------------------------------------------------------------------
// Rendering
// ---------------------------------------------------------------------

/// The character of a decimal digit.
pub open spec fn digit_char(d: int) -> char {
    if d == 0 {
        '0'
    } else if d == 1 {
        '1'
    } else if d == 2 {
        '2'
    } else if d == 3 {
        '3'
    } else if d == 4 {
        '4'
    } else if d == 5 {
        '5'
    } else if d == 6 {
        '6'
    } else if d == 7 {
        '7'
    } else if d == 8 {
        '8'
    } else {
        '9'
    }
}

/// Decimal text of a nonnegative integer, most significant digit first.
pub open spec fn decimal_digits(n: int) -> Seq<char>
    decreases n,
{
    if n < 10 {
        seq![digit_char(n)]
    } else {
        decimal_digits(n / 10) + seq![digit_char(n % 10)]
    }
}

/// Decimal text of an integer.
pub open spec fn decimal_of(n: int) -> Seq<char> {
    if n < 0 {
        seq!['-'] + decimal_digits(-n)
    } else {
        decimal_digits(n)
    }
}

/// The text a value renders to: integers in decimal, text verbatim,
/// arrays as a bracketed element-count summary, pattern text verbatim,
/// `Nil` as empty text.
pub open spec fn render_model(v: Val) -> Seq<char> {
    match v {
        Val::Int(n) => decimal_of(n),
        Val::Text(s) => s,
        Val::Arr(a) => "[Array("@ + decimal_of(a.len() as int) + ")]"@,
        Val::Pat(p) => p,
        Val::Nil => Seq::empty(),
    }
}

/// The text the output statement renders a value to: as `render_model`,
/// except that pattern text is slash-delimited.
pub open spec fn print_model(v: Val) -> Seq<char> {
    match v {
        Val::Pat(p) => seq!['/'] + p + seq!['/'],
        _ => render_model(v),
    }
}

fn digit_to_char(d: u64) -> (c: char)
    requires
        d < 10,
    ensures
        c == digit_char(d as int),
{
    match d {
        0 => '0',
        1 => '1',
        2 => '2',
        3 => '3',
        4 => '4',
        5 => '5',
        6 => '6',
        7 => '7',
        8 => '8',
        _ => '9',
    }
}

/// Decimal text of an unsigned machine integer.
pub fn digits_chars(n: u64) -> (r: Vec<char>)
    ensures
        r@ == decimal_digits(n as int),
    decreases n,
{
    if n < 10 {
        let mut v: Vec<char> = Vec::new();
        v.push(digit_to_char(n));
        proof {
            assert(v@ =~= seq![digit_char(n as int)]);
        }
        v
    } else {
        let mut v = digits_chars(n / 10);
        v.push(digit_to_char(n % 10));
        proof {
            assert(v@ =~= decimal_digits(n as int / 10) + seq![digit_char(n as int % 10)]);
        }
        v
    }
}

/// Decimal text of a signed machine integer.
pub fn int_chars(n: i64) -> (r: Vec<char>)
    ensures
        r@ == decimal_of(n as int),
{
    if n >= 0 {
        digits_chars(n as u64)
    } else {
        let mag: u64 = if n == i64::MIN {
            9223372036854775808u64
        } else {
            (-n) as u64
        };
        let mut v: Vec<char> = Vec::new();
        v.push('-');
        let d = digits_chars(mag);
        crate::text::push_chars(&mut v, &d);
        proof {
            assert(v@ =~= seq!['-'] + decimal_digits(-(n as int)));
        }
        v
    }
}

impl Value {
    /// Render this value as text by the coercion rules.
    pub fn render(&self) -> (r: Vec<char>)
        ensures
            r@ == render_model(self@),
    {
        match self {
            Value::Int(n) => int_chars(*n),
            Value::Text(s) => copy_chars(s),
            Value::Arr(a) => {
                let mut v = crate::text::chars_of("[Array(");
                let d = digits_chars(a.len() as u64);
                crate::text::push_chars(&mut v, &d);
                let close = crate::text::chars_of(")]");
                crate::text::push_chars(&mut v, &close);
                proof {
                    lemma_models_of(a@);
                    assert(v@ =~= "[Array("@ + decimal_of(a@.len() as int) + ")]"@);
                }
                v
            }
            Value::Pat(p) => copy_chars(p),
            Value::Nil => Vec::new(),
        }
    }

    /// Render this value for the output statement.
    pub fn print_render(&self) -> (r: Vec<char>)
        ensures
            r@ == print_model(self@),
    {
        match self {
            Value::Pat(p) => {
                let mut v: Vec<char> = Vec::new();
                v.push('/');
                crate::text::push_chars(&mut v, p);
                v.push('/');
                proof {
                    assert(v@ =~= seq!['/'] + p@ + seq!['/']);
                }
                v
            }
            _ => self.render(),
        }
    }
}

/// Copy a character vector.
pub fn copy_chars(s: &Vec<char>) -> (r: Vec<char>)
    ensures
        r@ == s@,
{
    let mut t: Vec<char> = Vec::new();
    crate::text::push_chars(&mut t, s);
    proof {
        assert(t@ =~= s@);
    }
    t
}

// ---------------------------------------------------------------------
// Comparison and equality
// ---------------------------------------------------------------------

/// Outcome of an ordered comparison.
pub enum Cmp {
    Below,
    Equal,
    Above,
}

/// Numeric ordering.
pub open spec fn cmp_int(a: int, b: int) -> Cmp {
    if a < b {
        Cmp::Below
    } else if a == b {
        Cmp::Equal
    } else {
        Cmp::Above
    }
}

/// Lexicographic ordering of text.
pub open spec fn lex_cmp(s: Seq<char>, t: Seq<char>) -> Cmp
    decreases s.len(),
{
    if s.len() == 0 && t.len() == 0 {
        Cmp::Equal
    } else if s.len() == 0 {
        Cmp::Below
    } else if t.len() == 0 {
        Cmp::Above
    } else if s[0] < t[0] {
        Cmp::Below
    } else if t[0] < s[0] {
        Cmp::Above
    } else {
        lex_cmp(s.subrange(1, s.len() as int), t.subrange(1, t.len() as int))
    }
}

/// What `compare` returns: an ordering only when both operands are
/// integers (or text standing for one of them, coerced numerically) or
/// both are text; any other pairing is unordered.
pub open spec fn compare_model(a: Val, b: Val) -> Option<Cmp> {
    match (a, b) {
        (Val::Int(x), Val::Int(y)) => Some(cmp_int(x, y)),
        (Val::Text(s), Val::Text(t)) => Some(lex_cmp(s, t)),
        (Val::Int(x), Val::Text(t)) => Some(cmp_int(x, clip64(int_of_text(t)))),
        (Val::Text(s), Val::Int(y)) => Some(cmp_int(clip64(int_of_text(s)), y)),
        _ => None,
    }
}

/// What `equals` returns: type-appropriate equality, with numeric
/// coercion between integers and text, deep element-wise equality for
/// arrays, and distinct types (other than integer/text) never equal.
pub open spec fn eq_model(a: Val, b: Val) -> bool {
    match (a, b) {
        (Val::Int(x), Val::Int(y)) => x == y,
        (Val::Text(s), Val::Text(t)) => s == t,
        (Val::Int(x), Val::Text(t)) => x == clip64(int_of_text(t)),
        (Val::Text(s), Val::Int(y)) => clip64(int_of_text(s)) == y,
        (Val::Pat(p), Val::Pat(q)) => p == q,
        (Val::Arr(x), Val::Arr(y)) => x == y,
        (Val::Nil, Val::Nil) => true,
        _ => false,
    }
}

impl Value {
    /// Ordered comparison; `None` is "unordered".
    pub fn compare(&self, other: &Value) -> (r: Option<Cmp>)
        ensures
            r == compare_model(self@, other@),
    {
        match (self, other) {
            (Value::Int(x), Value::Int(y)) => {
                Some(if *x < *y {
                    Cmp::Below
                } else if *x == *y {
                    Cmp::Equal
                } else {
                    Cmp::Above
                })
            }
            (Value::Text(s), Value::Text(t)) => Some(lex_compare(s, t)),
            (Value::Int(x), Value::Text(t)) => {
                let y = parse_int(t);
                Some(if *x < y {
                    Cmp::Below
                } else if *x == y {
                    Cmp::Equal
                } else {
                    Cmp::Above
                })
            }
            (Value::Text(s), Value::Int(y)) => {
                let x = parse_int(s);
                Some(if x < *y {
                    Cmp::Below
                } else if x == *y {
                    Cmp::Equal
                } else {
                    Cmp::Above
                })
            }
            _ => None,
        }
    }

    /// Type-appropriate equality.
    pub fn equals(&self, other: &Value) -> (r: bool)
        ensures
            r == eq_model(self@, other@),
    {
        match (self, other) {
            (Value::Int(x), Value::Int(y)) => *x == *y,
            (Value::Text(s), Value::Text(t)) => crate::text::chars_eq(s, t),
            (Value::Int(x), Value::Text(t)) => *x == parse_int(t),
            (Value::Text(s), Value::Int(y)) => parse_int(s) == *y,
            (Value::Pat(p), Value::Pat(q)) => crate::text::chars_eq(p, q),
            (Value::Arr(_), Value::Arr(_)) => self.deep_equals(other),
            (Value::Nil, Value::Nil) => true,
            _ => false,
        }
    }

    /// Structural equality: the two values have the same model.
    pub fn deep_equals(&self, other: &Value) -> (r: bool)
        ensures
            r == (self@ == other@),
        decreases self,
    {
        match self {
            Value::Int(x) => match other {
                Value::Int(y) => *x == *y,
                _ => false,
            },
            Value::Text(s) => match other {
                Value::Text(t) => crate::text::chars_eq(s, t),
                _ => false,
            },
            Value::Pat(p) => match other {
                Value::Pat(q) => crate::text::chars_eq(p, q),
                _ => false,
            },
            Value::Nil => match other {
                Value::Nil => true,
                _ => false,
            },
            Value::Arr(x) => match other {
                Value::Arr(y) => {
                    proof {
                        lemma_models_of(x@);
                        lemma_models_of(y@);
                    }
                    if x.len() != y.len() {
                        return false;
                    }
                    let mut i: usize = 0;
                    while i < x.len()
                        invariant
                            *self == Value::Arr(*x),
                            *other == Value::Arr(*y),
                            x@.len() == y@.len(),
                            i <= x@.len(),
                            forall|j: int| 0 <= j < i ==> x@[j].model() == y@[j].model(),
                        decreases x@.len() - i,
                    {
                        proof {
                            assert(decreases_to!(*self => self->Arr_0));
                            assert(decreases_to!(self->Arr_0 => self->Arr_0@));
                            assert(decreases_to!(self->Arr_0@ => self->Arr_0@[i as int]));
                            assert(decreases_to!(*self => x@[i as int]));
                        }
                        let same = x[i].deep_equals(&y[i]);
                        if !same {
                            proof {
                                lemma_models_of(x@);
                                lemma_models_of(y@);
                                assert(models_of(x@)[i as int] != models_of(y@)[i as int]);
                            }
                            return false;
                        }
                        i = i + 1;
                    }
                    proof {
                        lemma_models_of(x@);
                        lemma_models_of(y@);
                        assert(models_of(x@) =~= models_of(y@));
                    }
                    true
                }
                _ => false,
            },
        }
    }
}

/// Lexicographic comparison of text.
pub fn lex_compare(s: &Vec<char>, t: &Vec<char>) -> (r: Cmp)
    ensures
        r == lex_cmp(s@, t@),
{
    let mut i: usize = 0;
    proof {
        assert(s@.subrange(0, s@.len() as int) =~= s@);
        assert(t@.subrange(0, t@.len() as int) =~= t@);
    }
    while i < s.len() && i < t.len()
        invariant
            i <= s@.len(),
            i <= t@.len(),
            lex_cmp(s@, t@) == lex_cmp(
                s@.subrange(i as int, s@.len() as int),
                t@.subrange(i as int, t@.len() as int),
            ),
        decreases s@.len() - i,
    {
        let a = s[i];
        let b = t[i];
        let ghost srest = s@.subrange(i as int, s@.len() as int);
        let ghost trest = t@.subrange(i as int, t@.len() as int);
        if a < b {
            return Cmp::Below;
        }
        if b < a {
            return Cmp::Above;
        }
        i = i + 1;
        proof {
            assert(srest.subrange(1, srest.len() as int)
                =~= s@.subrange(i as int, s@.len() as int));
            assert(trest.subrange(1, trest.len() as int)
                =~= t@.subrange(i as int, t@.len() as int));
        }
    }
    proof {
        assert(s@.subrange(s@.len() as int, s@.len() as int).len() == 0);
        assert(t@.subrange(t@.len() as int, t@.len() as int).len() == 0);
    }
    if s.len() == t.len() {
        Cmp::Equal
    } else if s.len() < t.len() {
        Cmp::Below
    } else {
        Cmp::Above
    }
}

} // verus!
