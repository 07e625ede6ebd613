use vstd::prelude::*;
use vstd::string::StrSliceExecFns;

verus! {

/// A closed set of variants, each with a numeric code and a canonical name.
///
/// The spec functions describe the table; the executable methods are held to
/// them, and the proof functions state the laws every implementation obeys:
/// codes and names round-trip, and lookups of undeclared codes or names give
/// `None`.
pub trait EnumString<T>: Sized {
    /// The numeric code of a variant.
    spec fn code(&self) -> T;

    /// The canonical name of a variant.
    spec fn name(&self) -> Seq<char>;

    /// The variant with the given code, if any.
    spec fn variant_of_code(v: T) -> Option<Self>;

    /// The variant with the given canonical name, if any.
    spec fn variant_of_name(s: Seq<char>) -> Option<Self>;

    /// Return the enum variant of the given numeric value.
    fn from_u(v: T) -> (r: Option<Self>)
        ensures
            r == Self::variant_of_code(v),
    ;

    /// Convert the enum variant to the numeric value.
    fn into_u(self) -> (r: T)
        ensures
            r == self.code(),
    ;

    /// Return the string for logging the enum value.
    fn to_str(&self) -> (r: &'static str)
        ensures
            r@ == self.name(),
    ;

    /// Get an enum variant from parsing a string.
    fn from_str(s: &str) -> (r: Option<Self>)
        ensures
            r == Self::variant_of_name(s@),
    ;

    /// Every variant is found again from its code and from its name.
    proof fn lemma_round_trip(v: Self)
        ensures
            Self::variant_of_code(v.code()) == Some(v),
            Self::variant_of_name(v.name()) == Some(v),
    ;

    /// A lookup finds a variant exactly when some variant has that code or
    /// name, and what it finds carries that code or name.
    proof fn lemma_lookup_exact(c: T, s: Seq<char>)
        ensures
            Self::variant_of_code(c) is None <==> forall|v: Self| #[trigger] v.code() != c,
            Self::variant_of_name(s) is None <==> forall|v: Self| #[trigger] v.name() != s,
            Self::variant_of_code(c) matches Some(v) ==> v.code() == c,
            Self::variant_of_name(s) matches Some(v) ==> v.name() == s,
    ;
}

/// Whether a character is an ASCII capital letter.
pub open spec fn is_capital(c: char) -> bool {
    'A' <= c && c <= 'Z'
}

/// The lower-case form of an ASCII capital letter; other characters stay.
pub open spec fn lower_of(c: char) -> char {
    if is_capital(c) {
        ((c as u32 + 32) as u8) as char
    } else {
        c
    }
}

/// What one identifier character becomes in snake case: a capital letter
/// that does not start the identifier opens a new word with `_`.
pub open spec fn snake_piece(c: char, first: bool) -> Seq<char> {
    if is_capital(c) && !first {
        seq!['_', lower_of(c)]
    } else {
        seq![lower_of(c)]
    }
}

/// The snake-case form of an identifier written in capitalised words.
pub open spec fn snake_of(s: Seq<char>) -> Seq<char>
    decreases s.len(),
{
    if s.len() == 0 {
        Seq::empty()
    } else {
        snake_of(s.drop_last()) + snake_piece(s.last(), s.len() == 1)
    }
}

/// Whether an identifier holds an ASCII lower-case letter.
pub open spec fn has_lower(s: Seq<char>) -> bool {
    exists|t: int| 0 <= t < s.len() && 'a' <= #[trigger] s[t] && s[t] <= 'z'
}

/// An identifier with every ASCII capital letter lower-cased.
pub open spec fn lower_all(s: Seq<char>) -> Seq<char> {
    Seq::new(s.len(), |t: int| lower_of(s[t]))
}

/// The canonical name of an identifier: written in capitalised words, it
/// is their snake-case form; written with no lower-case letter (an acronym
/// such as `DCE`), it is one word, lower-cased whole.
pub open spec fn canonical_of(s: Seq<char>) -> Seq<char> {
    if has_lower(s) {
        snake_of(s)
    } else {
        lower_all(s)
    }
}

/// Relies on `FromIterator<char>` for `String`: the string holds the
/// characters in order.
#[verifier::external_body]
fn string_from_chars(v: &Vec<char>) -> (r: String)
    ensures
        r@ == v@,
{
    v.iter().collect()
}

/// The canonical name of a variant identifier: its capitalised words
/// lower-cased and joined by `_` (`BestValueEver` gives `best_value_ever`);
/// an identifier with no lower-case letter is one word (`DCE` gives `dce`).
pub fn canonical_name(ident: &str) -> (r: String)
    ensures
        r@ == canonical_of(ident@),
{
    let n = ident.unicode_len();
    let mut out: Vec<char> = Vec::new();
    let mut lower_seen = false;
    let mut k: usize = 0;
    while k < n
        invariant
            n == ident@.len(),
            k <= n,
            lower_seen == exists|t: int| 0 <= t < k && 'a' <= #[trigger] ident@[t] && ident@[t] <= 'z',
        decreases n - k,
    {
        let c = ident.get_char(k);
        if 'a' <= c && c <= 'z' {
            lower_seen = true;
        }
        k = k + 1;
    }
    if !lower_seen {
        let mut j: usize = 0;
        while j < n
            invariant
                n == ident@.len(),
                j <= n,
                out@ == lower_all(ident@.subrange(0, j as int)),
            decreases n - j,
        {
            let c = ident.get_char(j);
            if 'A' <= c && c <= 'Z' {
                out.push(((c as u32 + 32) as u8) as char);
            } else {
                out.push(c);
            }
            assert(out@ =~= lower_all(ident@.subrange(0, j + 1)));
            j = j + 1;
        }
        assert(ident@.subrange(0, n as int) =~= ident@);
        return string_from_chars(&out);
    }
    let mut i: usize = 0;
    while i < n
        invariant
            n == ident@.len(),
            i <= n,
            has_lower(ident@),
            out@ == snake_of(ident@.subrange(0, i as int)),
        decreases n - i,
    {
        let c = ident.get_char(i);
        if 'A' <= c && c <= 'Z' {
            if i > 0 {
                out.push('_');
            }
            out.push(((c as u32 + 32) as u8) as char);
        } else {
            out.push(c);
        }
        proof {
            let p = ident@.subrange(0, i + 1);
            assert(p.drop_last() =~= ident@.subrange(0, i as int));
        }
        i = i + 1;
    }
    assert(ident@.subrange(0, n as int) =~= ident@);
    string_from_chars(&out)
}

/// Why a declaration of variants was refused.
#[derive(Copy, Clone, Debug, PartialEq, Eq, Structural)]
pub enum TableError {
    /// The lists of codes and identifiers differ in length.
    LengthMismatch,
    /// Two variants share a code.
    DuplicateCode,
    /// Two variants share a canonical name.
    DuplicateName,
}

/// Whether no two elements of a sequence are equal.
pub open spec fn all_distinct<A>(s: Seq<A>) -> bool {
    forall|i: int, j: int| 0 <= i < j < s.len() ==> s[i] != s[j]
}

/// A closed set of variants declared by (code, identifier) pairs; variant
/// `i` is the `i`-th pair, and its canonical name is derived from its
/// identifier.
pub struct VariantTable {
    codes: Vec<u8>,
    names: Vec<String>,
}

impl VariantTable {
    /// The codes of the variants, in order.
    pub closed spec fn codes(&self) -> Seq<u8> {
        self.codes@
    }

    /// The canonical names of the variants, in order.
    pub closed spec fn names(&self) -> Seq<Seq<char>> {
        Seq::new(self.names@.len(), |i: int| self.names@[i]@)
    }

    /// One name per code; codes unique; names unique.
    pub open spec fn wf(&self) -> bool {
        &&& self.codes().len() == self.names().len()
        &&& all_distinct(self.codes())
        &&& all_distinct(self.names())
    }

    /// Build the table of variants with the given codes and identifiers.
    /// Refused where the lists differ in length, where a code repeats, or
    /// where two identifiers give the same canonical name.
    pub fn declare(codes: &[u8], idents: &[&str]) -> (r: Result<VariantTable, TableError>)
        ensures
            codes@.len() != idents@.len() ==> r == Err::<VariantTable, TableError>(TableError::LengthMismatch),
            codes@.len() == idents@.len() && !all_distinct(codes@) ==> r == Err::<VariantTable, TableError>(
                TableError::DuplicateCode,
            ),
            codes@.len() == idents@.len() && all_distinct(codes@) && !all_distinct(
                Seq::new(idents@.len(), |i: int| canonical_of(idents@[i]@)),
            ) ==> r == Err::<VariantTable, TableError>(TableError::DuplicateName),
            r is Ok <==> codes@.len() == idents@.len() && all_distinct(codes@) && all_distinct(
                Seq::new(idents@.len(), |i: int| canonical_of(idents@[i]@)),
            ),
            r matches Ok(t) ==> t.wf() && t.codes() == codes@ && t.names() == Seq::new(
                idents@.len(),
                |i: int| canonical_of(idents@[i]@),
            ),
    {
        if codes.len() != idents.len() {
            return Err(TableError::LengthMismatch);
        }
        let n = codes.len();
        let mut i: usize = 0;
        while i < n
            invariant
                n == codes@.len(),
                n == idents@.len(),
                i <= n,
                forall|a: int, b: int| 0 <= a < b < n && a < i ==> codes@[a] != codes@[b],
            decreases n - i,
        {
            let mut j: usize = i + 1;
            while j < n
                invariant
                    n == codes@.len(),
                    n == idents@.len(),
                    i < n,
                    i < j <= n,
                    forall|a: int, b: int| 0 <= a < b < n && a < i ==> codes@[a] != codes@[b],
                    forall|b: int| i < b < j ==> codes@[i as int] != codes@[b],
                decreases n - j,
            {
                if codes[i] == codes[j] {
                    return Err(TableError::DuplicateCode);
                }
                j = j + 1;
            }
            i = i + 1;
        }
        assert(all_distinct(codes@));
        let ghost want = Seq::new(idents@.len(), |t: int| canonical_of(idents@[t]@));
        let mut names: Vec<String> = Vec::new();
        let mut k: usize = 0;
        while k < n
            invariant
                n == idents@.len(),
                n == codes@.len(),
                all_distinct(codes@),
                want == Seq::new(idents@.len(), |t: int| canonical_of(idents@[t]@)),
                k <= n,
                names@.len() == k,
                forall|t: int| 0 <= t < k ==> #[trigger] names@[t]@ == want[t],
            decreases n - k,
        {
            let c = canonical_name(idents[k]);
            names.push(c);
            k = k + 1;
        }
        let mut a: usize = 0;
        while a < n
            invariant
                n == names@.len(),
                n == idents@.len(),
                n == codes@.len(),
                all_distinct(codes@),
                want == Seq::new(idents@.len(), |t: int| canonical_of(idents@[t]@)),
                forall|t: int| 0 <= t < n ==> #[trigger] names@[t]@ == want[t],
                a <= n,
                forall|x: int, y: int| 0 <= x < y < n && x < a ==> names@[x]@ != names@[y]@,
            decreases n - a,
        {
            let mut b: usize = a + 1;
            while b < n
                invariant
                    n == names@.len(),
                    n == idents@.len(),
                    n == codes@.len(),
                    all_distinct(codes@),
                    want == Seq::new(idents@.len(), |t: int| canonical_of(idents@[t]@)),
                    forall|t: int| 0 <= t < n ==> #[trigger] names@[t]@ == want[t],
                    a < n,
                    a < b <= n,
                    forall|x: int, y: int| 0 <= x < y < n && x < a ==> names@[x]@ != names@[y]@,
                    forall|y: int| a < y < b ==> names@[a as int]@ != names@[y]@,
                decreases n - b,
            {
                if str_equal(names[a].as_str(), names[b].as_str()) {
                    proof {
                        assert(names@[a as int]@ == want[a as int]);
                        assert(names@[b as int]@ == want[b as int]);
                        assert(want[a as int] == want[b as int]);
                    }
                    return Err(TableError::DuplicateName);
                }
                b = b + 1;
            }
            a = a + 1;
        }
        assert(all_distinct(want)) by {
            assert forall|x: int, y: int| 0 <= x < y < want.len() implies want[x] != want[y] by {
                assert(names@[x]@ == want[x]);
                assert(names@[y]@ == want[y]);
            }
        }
        let mut cv: Vec<u8> = Vec::new();
        let mut m: usize = 0;
        while m < n
            invariant
                n == codes@.len(),
                m <= n,
                cv@ == codes@.subrange(0, m as int),
            decreases n - m,
        {
            cv.push(codes[m]);
            proof {
                assert(codes@.subrange(0, m + 1) =~= codes@.subrange(0, m as int).push(codes@[m as int]));
            }
            m = m + 1;
        }
        assert(codes@.subrange(0, n as int) =~= codes@);
        let t = VariantTable { codes: cv, names };
        proof {
            assert(t.names() =~= want);
        }
        Ok(t)
    }

    /// Number of variants.
    pub fn len(&self) -> (r: usize)
        ensures
            r == self.codes().len(),
    {
        self.codes.len()
    }

    /// The code of variant `i`.
    pub fn code_at(&self, i: usize) -> (r: u8)
        requires
            i < self.codes().len(),
        ensures
            r == self.codes()[i as int],
    {
        self.codes[i]
    }

    /// The canonical name of variant `i`.
    pub fn name_at(&self, i: usize) -> (r: &str)
        requires
            self.wf(),
            i < self.codes().len(),
        ensures
            r@ == self.names()[i as int],
    {
        self.names[i].as_str()
    }

    /// The variant with code `v`, if one is declared.
    pub fn index_of_code(&self, v: u8) -> (r: Option<usize>)
        ensures
            r matches Some(i) ==> i < self.codes().len() && self.codes()[i as int] == v,
            r is None <==> forall|i: int| 0 <= i < self.codes().len() ==> #[trigger] self.codes()[i] != v,
    {
        let mut i: usize = 0;
        while i < self.codes.len()
            invariant
                i <= self.codes@.len(),
                forall|t: int| 0 <= t < i ==> #[trigger] self.codes@[t] != v,
            decreases self.codes@.len() - i,
        {
            if self.codes[i] == v {
                assert(self.codes()[i as int] == v);
                return Some(i);
            }
            i = i + 1;
        }
        None
    }

    /// The variant whose canonical name is exactly `s`, if one is declared.
    pub fn index_of_name(&self, s: &str) -> (r: Option<usize>)
        requires
            self.wf(),
        ensures
            r matches Some(i) ==> i < self.names().len() && self.names()[i as int] == s@,
            r is None <==> forall|i: int| 0 <= i < self.names().len() ==> #[trigger] self.names()[i] != s@,
    {
        let mut i: usize = 0;
        while i < self.names.len()
            invariant
                self.wf(),
                i <= self.names@.len(),
                forall|t: int| 0 <= t < i ==> #[trigger] self.names()[t] != s@,
            decreases self.names@.len() - i,
        {
            if str_equal(self.names[i].as_str(), s) {
                assert(self.names()[i as int] == s@);
                return Some(i);
            }
            i = i + 1;
        }
        None
    }
}

/// In a declared table every variant is found again from its code and from
/// its canonical name: no other variant carries either.
pub proof fn lemma_table_round_trip(t: VariantTable, i: int)
    requires
        t.wf(),
        0 <= i < t.codes().len(),
    ensures
        forall|j: int| 0 <= j < t.codes().len() && #[trigger] t.codes()[j] == t.codes()[i] ==> j == i,
        forall|j: int| 0 <= j < t.names().len() && #[trigger] t.names()[j] == t.names()[i] ==> j == i,
{
    assert forall|j: int| 0 <= j < t.codes().len() && #[trigger] t.codes()[j] == t.codes()[i] implies j == i by {
        if j < i {
            assert(t.codes()[j] != t.codes()[i]);
        } else if i < j {
            assert(t.codes()[i] != t.codes()[j]);
        }
    }
    assert forall|j: int| 0 <= j < t.names().len() && #[trigger] t.names()[j] == t.names()[i] implies j == i by {
        if j < i {
            assert(t.names()[j] != t.names()[i]);
        } else if i < j {
            assert(t.names()[i] != t.names()[j]);
        }
    }
}

/// Whether two strings hold the same characters.
pub fn str_equal(a: &str, b: &str) -> (r: bool)
    ensures
        r == (a@ == b@),
{
    let n = a.unicode_len();
    let m = b.unicode_len();
    if n != m {
        return false;
    }
    let mut i: usize = 0;
    while i < n
        invariant
            n == a@.len(),
            n == b@.len(),
            i <= n,
            a@.subrange(0, i as int) == b@.subrange(0, i as int),
        decreases n - i,
    {
        if a.get_char(i) != b.get_char(i) {
            assert(a@[i as int] != b@[i as int]);
            return false;
        }
        assert(a@.subrange(0, i + 1) =~= a@.subrange(0, i as int).push(a@[i as int]));
        assert(b@.subrange(0, i + 1) =~= b@.subrange(0, i as int).push(b@[i as int]));
        i = i + 1;
    }
    assert(a@ =~= a@.subrange(0, n as int));
    assert(b@ =~= b@.subrange(0, n as int));
    true
}

} // verus!
