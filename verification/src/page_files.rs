//! Names of the page files inside a song file.
//!
//! A song file stores page `i` under the name `page_<i>.<extension>`, where the
//! extension tells the format of the page (`pdf`, `png`, ...). Loading looks a page
//! up by the prefix `page_<i>.` and insists on exactly one match.
use vstd::prelude::*;
use crate::outside::push_char;

verus! {

/// The character of a decimal digit.
pub open spec fn digit_char(d: int) -> char {
    seq!['0', '1', '2', '3', '4', '5', '6', '7', '8', '9'][d]
}

/// The decimal digits of `n`, most significant first, without leading zeros.
pub open spec fn decimal(n: nat) -> Seq<char>
    decreases n,
{
    if n < 10 {
        seq![digit_char(n as int)]
    } else {
        decimal(n / 10).push(digit_char((n % 10) as int))
    }
}

/// `page_<index>.`: the start of the name of page `index`.
pub open spec fn page_prefix(index: nat) -> Seq<char> {
    seq!['p', 'a', 'g', 'e', '_'] + decimal(index) + seq!['.']
}

/// `page_<index>.<extension>`: the name under which page `index` is stored.
pub open spec fn page_name(index: nat, extension: Seq<char>) -> Seq<char> {
    page_prefix(index) + extension
}

/// `prefix` is where `s` begins.
pub open spec fn is_prefix_of(prefix: Seq<char>, s: Seq<char>) -> bool {
    prefix.len() <= s.len() && s.subrange(0, prefix.len() as int) == prefix
}

/// The name is one of page `index`'s files.
pub open spec fn names_page(name: Seq<char>, index: nat) -> bool {
    is_prefix_of(page_prefix(index), name)
}

/// Why a page could not be found among the files of a song.
pub enum PageFileError {
    /// No file is named `page_<index>.*`.
    NotFound,
    /// Several different files are named `page_<index>.*`; their positions.
    Ambiguous(Vec<usize>),
}

/// The decimal digits of a number.
pub fn decimal_string(n: usize) -> (r: String)
    ensures
        r@ == decimal(n as nat),
{
    let mut digits: Vec<char> = Vec::new();
    let mut rest = n;
    let ghost mut taken: nat = 0;
    loop
        invariant_except_break
            decimal(n as nat) == decimal(rest as nat) + digits@.reverse(),
        ensures
            decimal(n as nat) == digits@.reverse(),
        decreases rest,
    {
        let d = rest % 10;
        let c = if d == 0 { '0' } else if d == 1 { '1' } else if d == 2 { '2' } else if d == 3 { '3' }
            else if d == 4 { '4' } else if d == 5 { '5' } else if d == 6 { '6' } else if d == 7 { '7' }
            else if d == 8 { '8' } else { '9' };
        assert(c == digit_char(d as int));
        if rest < 10 {
            digits.push(c);
            assert(decimal(rest as nat) == seq![c]);
            assert(decimal(n as nat) =~= digits@.reverse());
            break;
        }
        assert(decimal(rest as nat) == decimal((rest / 10) as nat).push(c));
        digits.push(c);
        assert(digits@.reverse() =~= seq![c] + digits@.drop_last().reverse());
        rest = rest / 10;
        assert(decimal(n as nat) =~= decimal(rest as nat) + digits@.reverse());
    }
    let mut r = String::new();
    let mut i = digits.len();
    while i > 0
        invariant
            0 <= i <= digits@.len(),
            r@ == digits@.subrange(i as int, digits@.len() as int).reverse(),
            decimal(n as nat) =~= digits@.reverse(),
        decreases i,
    {
        i -= 1;
        push_char(&mut r, digits[i]);
        assert(r@ =~= digits@.subrange(i as int, digits@.len() as int).reverse());
    }
    assert(digits@.subrange(0, digits@.len() as int) =~= digits@);
    r
}

/// Append a string literal's characters one by one.
fn push_all(r: &mut String, s: &Vec<char>)
    ensures
        final(r)@ == old(r)@ + s@,
{
    let mut i: usize = 0;
    while i < s.len()
        invariant
            0 <= i <= s@.len(),
            r@ == old(r)@ + s@.take(i as int),
        decreases s@.len() - i,
    {
        push_char(r, s[i]);
        assert(r@ =~= old(r)@ + s@.take(i + 1));
        i += 1;
    }
    assert(s@.take(s@.len() as int) =~= s@);
}

/// The characters of a string.
pub fn chars_of(s: &str) -> (r: Vec<char>)
    ensures
        r@ == s@,
{
    let mut r: Vec<char> = Vec::new();
    for c in it: s.chars()
        invariant
            it.seq() == s@,
            r@ == it.seq().take(it.index() as int),
    {
        r.push(c);
        assert(r@ =~= it.seq().take(it.index() + 1));
    }
    assert(r@ =~= s@);
    r
}

/// `page_<index>.`: the prefix of the files of page `index`.
pub fn page_file_prefix(index: usize) -> (r: String)
    ensures
        r@ == page_prefix(index as nat),
{
    let mut r = String::new();
    push_all(&mut r, &vec!['p', 'a', 'g', 'e', '_']);
    let digits = decimal_string(index);
    let digit_chars = chars_of(digits.as_str());
    push_all(&mut r, &digit_chars);
    push_char(&mut r, '.');
    assert(r@ =~= page_prefix(index as nat));
    r
}

/// `page_<index>.<extension>`: the name under which page `index` is saved.
pub fn page_file_name(index: usize, extension: &str) -> (r: String)
    ensures
        r@ == page_name(index as nat, extension@),
{
    let mut r = page_file_prefix(index);
    let ext = chars_of(extension);
    push_all(&mut r, &ext);
    r
}

/// `prefix` is where `s` begins.
fn starts_with(s: &Vec<char>, prefix: &Vec<char>) -> (r: bool)
    ensures
        r == is_prefix_of(prefix@, s@),
{
    if prefix.len() > s.len() {
        return false;
    }
    let mut i: usize = 0;
    while i < prefix.len()
        invariant
            prefix@.len() <= s@.len(),
            0 <= i <= prefix@.len(),
            forall|j: int| 0 <= j < i ==> s@[j] == prefix@[j],
        decreases prefix@.len() - i,
    {
        if s[i] != prefix[i] {
            assert(s@.subrange(0, prefix@.len() as int)[i as int] != prefix@[i as int]);
            return false;
        }
        i += 1;
    }
    assert(s@.subrange(0, prefix@.len() as int) =~= prefix@);
    true
}

/// Position of the last `.` in `s`, or `-1` if there is none.
pub open spec fn last_dot(s: Seq<char>) -> int
    decreases s.len(),
{
    if s.len() == 0 {
        -1
    } else if s.last() == '.' {
        s.len() - 1
    } else {
        last_dot(s.drop_last())
    }
}

/// The extension of a file name: what follows its last `.`, or the whole name if
/// it has no `.`.
pub open spec fn extension_of(name: Seq<char>) -> Seq<char> {
    name.subrange(last_dot(name) + 1, name.len() as int)
}

/// The extension of the files that hold a PDF page.
pub open spec fn pdf_extension() -> Seq<char> {
    seq!['p', 'd', 'f']
}

proof fn lemma_last_dot(s: Seq<char>)
    ensures
        -1 <= last_dot(s) < s.len(),
        last_dot(s) >= 0 ==> s[last_dot(s)] == '.',
        forall|k: int| last_dot(s) < k < s.len() ==> #[trigger] s[k] != '.',
    decreases s.len(),
{
    if s.len() > 0 && s.last() != '.' {
        lemma_last_dot(s.drop_last());
        assert forall|k: int| last_dot(s) < k < s.len() implies #[trigger] s[k] != '.' by {
            if k < s.len() - 1 {
                assert(s.drop_last()[k] == s[k]);
            }
        }
    }
}

/// The extension of a file name: what follows its last `.`.
pub fn file_extension(name: &str) -> (r: String)
    ensures
        r@ == extension_of(name@),
{
    let chars = chars_of(name);
    let n = chars.len();
    let mut k = n;
    while k > 0 && chars[k - 1] != '.'
        invariant
            0 <= k <= n,
            n == chars@.len(),
            forall|j: int| k <= j < n ==> #[trigger] chars@[j] != '.',
        decreases k,
    {
        k -= 1;
    }
    proof {
        lemma_last_dot(chars@);
        let d = last_dot(chars@);
        assert(d + 1 == k) by {
            if d + 1 < k {
                assert(chars@[k - 1] == '.');
            }
            if d + 1 > k {
                assert(chars@[d] == '.');
            }
        }
    }
    let mut r = String::new();
    let mut i = k;
    while i < n
        invariant
            k <= i <= n,
            n == chars@.len(),
            r@ == chars@.subrange(k as int, i as int),
        decreases n - i,
    {
        push_char(&mut r, chars[i]);
        assert(r@ =~= chars@.subrange(k as int, i + 1));
        i += 1;
    }
    r
}

/// The extension names a PDF page.
pub fn is_pdf_extension(extension: &str) -> (r: bool)
    ensures
        r == (extension@ == pdf_extension()),
{
    let chars = chars_of(extension);
    let r = chars.len() == 3 && chars[0] == 'p' && chars[1] == 'd' && chars[2] == 'f';
    proof {
        if chars@.len() == 3 && !r {
            assert(extension@ != pdf_extension()) by {
                assert(pdf_extension()[0] == 'p' && pdf_extension()[1] == 'd' && pdf_extension()[2] == 'f');
            }
        }
        if r {
            assert(extension@ =~= pdf_extension());
        }
    }
    r
}

/// The file of page `index` among the files of a song: the position of the first
/// file named `page_<index>.*`, provided every such file has the same name.
pub fn find_page_file(names: &Vec<String>, index: usize) -> (r: Result<usize, PageFileError>)
    ensures
        match r {
            Ok(j) => {
                &&& j < names@.len()
                &&& names_page(names@[j as int]@, index as nat)
                &&& forall|k: int| 0 <= k < j ==> !names_page(#[trigger] names@[k]@, index as nat)
                &&& forall|k: int| 0 <= k < names@.len() && names_page(#[trigger] names@[k]@, index as nat)
                    ==> names@[k]@ == names@[j as int]@
            },
            Err(PageFileError::NotFound) => forall|k: int|
                0 <= k < names@.len() ==> !names_page(#[trigger] names@[k]@, index as nat),
            Err(PageFileError::Ambiguous(found)) => {
                &&& exists|k1: int, k2: int|
                    0 <= k1 < names@.len() && 0 <= k2 < names@.len()
                    && names_page(#[trigger] names@[k1]@, index as nat)
                    && names_page(#[trigger] names@[k2]@, index as nat)
                    && names@[k1]@ != names@[k2]@
                &&& forall|k: int| 0 <= k < found@.len() ==> (#[trigger] found@[k]) < names@.len()
                    && names_page(names@[found@[k] as int]@, index as nat)
                &&& forall|k: int| 0 <= k < names@.len() && names_page(#[trigger] names@[k]@, index as nat)
                    ==> found@.contains(k as usize)
            },
        },
{
    let prefix = page_file_prefix(index);
    let prefix_chars = chars_of(prefix.as_str());
    let mut found: Vec<usize> = Vec::new();
    let mut first: Option<usize> = None;
    let mut distinct = false;
    let n = names.len();
    let mut i: usize = 0;
    while i < n
        invariant
            n == names@.len(),
            prefix_chars@ == page_prefix(index as nat),
            0 <= i <= n,
            forall|k: int| 0 <= k < found@.len() ==> (#[trigger] found@[k]) < i
                && names_page(names@[found@[k] as int]@, index as nat),
            forall|k: int| 0 <= k < i && names_page(#[trigger] names@[k]@, index as nat)
                ==> found@.contains(k as usize),
            match first {
                Some(j) => {
                    &&& j < i
                    &&& names_page(names@[j as int]@, index as nat)
                    &&& forall|k: int| 0 <= k < j ==> !names_page(#[trigger] names@[k]@, index as nat)
                    &&& !distinct ==> forall|k: int| 0 <= k < i && names_page(#[trigger] names@[k]@, index as nat)
                        ==> names@[k]@ == names@[j as int]@
                    &&& distinct ==> exists|k1: int, k2: int|
                        0 <= k1 < names@.len() && 0 <= k2 < names@.len()
                        && names_page(#[trigger] names@[k1]@, index as nat)
                        && names_page(#[trigger] names@[k2]@, index as nat)
                        && names@[k1]@ != names@[k2]@
                },
                None => !distinct && forall|k: int| 0 <= k < i ==> !names_page(#[trigger] names@[k]@, index as nat),
            },
        decreases n - i,
    {
        let name_chars = chars_of(names[i].as_str());
        if starts_with(&name_chars, &prefix_chars) {
            let ghost before = found@;
            found.push(i);
            assert(found@[found@.len() - 1] == i);
            assert forall|k: int| 0 <= k < i && names_page(#[trigger] names@[k]@, index as nat)
                implies found@.contains(k as usize) by {
                assert(before.contains(k as usize));
                let m = choose|m: int| 0 <= m < before.len() && before[m] == k as usize;
                assert(found@[m] == k as usize);
            }
            match first {
                Some(j) => {
                    if names[i] != names[j] {
                        assert(names_page(names@[i as int]@, index as nat));
                        assert(names_page(names@[j as int]@, index as nat));
                        distinct = true;
                    }
                },
                None => {
                    first = Some(i);
                },
            }
        }
        i += 1;
    }
    match first {
        None => Err(PageFileError::NotFound),
        Some(j) => {
            if distinct {
                Err(PageFileError::Ambiguous(found))
            } else {
                Ok(j)
            }
        },
    }
}


proof fn lemma_digit_char(d: int)
    requires
        0 <= d < 10,
    ensures
        digit_char(d) != '.',
        forall|e: int| 0 <= e < 10 && digit_char(e) == digit_char(d) ==> e == d,
{
    let digits = seq!['0', '1', '2', '3', '4', '5', '6', '7', '8', '9'];
    assert(digits[0] == '0' && digits[1] == '1' && digits[2] == '2' && digits[3] == '3' && digits[4] == '4');
    assert(digits[5] == '5' && digits[6] == '6' && digits[7] == '7' && digits[8] == '8' && digits[9] == '9');
}

/// Decimal digits contain no dot, and one-digit numbers have one digit.
proof fn lemma_decimal_shape(n: nat)
    ensures
        forall|i: int| 0 <= i < decimal(n).len() ==> #[trigger] decimal(n)[i] != '.',
        decimal(n).len() >= 1,
        n < 10 <==> decimal(n).len() == 1,
    decreases n,
{
    if n < 10 {
        lemma_digit_char(n as int);
    } else {
        lemma_decimal_shape(n / 10);
        lemma_digit_char((n % 10) as int);
        assert forall|i: int| 0 <= i < decimal(n).len() implies #[trigger] decimal(n)[i] != '.' by {
            if i < decimal(n / 10).len() {
                assert(decimal(n)[i] == decimal(n / 10)[i]);
            }
        }
    }
}

/// Different numbers have different decimal digits.
proof fn lemma_decimal_injective(a: nat, b: nat)
    requires
        decimal(a) == decimal(b),
    ensures
        a == b,
    decreases a,
{
    lemma_decimal_shape(a);
    lemma_decimal_shape(b);
    if a < 10 {
        assert(b < 10);
        lemma_digit_char(a as int);
        assert(decimal(a)[0] == digit_char(a as int));
        assert(decimal(b)[0] == digit_char(b as int));
    } else {
        assert(b >= 10);
        assert(decimal(a).drop_last() =~= decimal(a / 10));
        assert(decimal(b).drop_last() =~= decimal(b / 10));
        lemma_decimal_injective(a / 10, b / 10);
        lemma_digit_char((a % 10) as int);
        assert(decimal(a).last() == digit_char((a % 10) as int));
        assert(decimal(b).last() == digit_char((b % 10) as int));
        assert(a % 10 == b % 10);
    }
}

/// The file saved for page `j` is one of page `i`'s files exactly when `i == j`.
pub proof fn lemma_page_name_matches(i: nat, j: nat, extension: Seq<char>)
    ensures
        names_page(page_name(j, extension), i) <==> i == j,
{
    let a = decimal(i);
    let b = decimal(j);
    let name = page_name(j, extension);
    let prefix = page_prefix(i);
    lemma_decimal_shape(i);
    lemma_decimal_shape(j);
    if i == j {
        assert(name.subrange(0, prefix.len() as int) =~= prefix);
    } else if names_page(name, i) {
        assert(name.subrange(0, prefix.len() as int) == prefix);
        if a.len() < b.len() {
            assert(prefix[5 + a.len() as int] == '.');
            assert(name[5 + a.len() as int] == b[a.len() as int]);
            assert(false);
        } else if a.len() > b.len() {
            assert(prefix[5 + b.len() as int] == a[b.len() as int]);
            assert(name[5 + b.len() as int] == '.');
            assert(false);
        } else {
            assert forall|k: int| 0 <= k < a.len() implies a[k] == b[k] by {
                assert(prefix[5 + k] == a[k]);
                assert(name[5 + k] == b[k]);
            }
            assert(a =~= b);
            lemma_decimal_injective(i, j);
        }
    }
}

/// A page saved by `page_file_name` is found again by `find_page_file`: among the
/// names of pages `0..n` (each with any extension), page `i`'s file is the only
/// one whose name starts with page `i`'s prefix.
pub proof fn lemma_saved_page_is_found(names: Seq<Seq<char>>, extensions: Seq<Seq<char>>, i: int)
    requires
        names.len() == extensions.len(),
        forall|j: int| 0 <= j < names.len() ==> #[trigger] names[j] == page_name(j as nat, extensions[j]),
        0 <= i < names.len(),
    ensures
        names_page(names[i], i as nat),
        forall|k: int| 0 <= k < names.len() && k != i ==> !names_page(#[trigger] names[k], i as nat),
{
    lemma_page_name_matches(i as nat, i as nat, extensions[i]);
    assert forall|k: int| 0 <= k < names.len() && k != i implies !names_page(#[trigger] names[k], i as nat) by {
        lemma_page_name_matches(i as nat, k as nat, extensions[k]);
    }
}

} // verus!
