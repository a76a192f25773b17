//! Where the translation of a page is kept on disk, and the hash that names it.
use vstd::prelude::*;
use vstd::string::StringExecFns;
use crate::digits;
use crate::text;

verus! {

/// The hash of no bytes.
pub const OFFSET_BASIS: u64 = 14695981039346656037;

/// What the hash is multiplied by for each byte.
pub const PRIME: u64 = 1099511628211;

/// The 64-bit FNV-1a hash of a sequence of bytes.
pub open spec fn fnv1a(bytes: Seq<u8>) -> u64
    decreases bytes.len(),
{
    if bytes.len() == 0 {
        OFFSET_BASIS
    } else {
        (fnv1a(bytes.drop_last()) ^ bytes.last() as u64).wrapping_mul(PRIME)
    }
}

/// The hash of a text in UTF-8, as sixteen digits in base sixteen.
pub open spec fn text_hash(s: Seq<char>) -> Seq<char> {
    digits::hexadecimal(fnv1a(vstd::utf8::encode_utf8(s)) as nat, 16)
}

/// Hashes a text: a hash that stays the same from process to process, fit for
/// the keys of a cache on disk.
pub fn hash_text(text: &str) -> (hash: String)
    ensures
        hash@ == text_hash(text@),
{
    let bytes = text.as_bytes();
    let mut hash: u64 = OFFSET_BASIS;
    let mut i: usize = 0;
    assert(bytes@.take(0) =~= Seq::empty());
    while i < bytes.len()
        invariant
            i <= bytes@.len(),
            hash == fnv1a(bytes@.take(i as int)),
        decreases bytes@.len() - i,
    {
        proof {
            assert(bytes@.take(i + 1).drop_last() =~= bytes@.take(i as int));
        }
        hash = (hash ^ bytes[i] as u64).wrapping_mul(PRIME);
        i += 1;
    }
    proof {
        assert(bytes@.take(i as int) =~= bytes@);
        assert(bytes@ == vstd::utf8::encode_utf8(text@));
    }
    let mut written = String::new();
    digits::push_hexadecimal(&mut written, hash, 16);
    assert(written@ =~= text_hash(text@));
    written
}

/// Whether a character may stand in a directory name: an ASCII letter or
/// digit, a hyphen or an underscore.
pub open spec fn safe_char(c: char) -> bool {
    'a' <= c <= 'z' || 'A' <= c <= 'Z' || '0' <= c <= '9' || c == '-' || c == '_'
}

/// Whether a text is a name that stays within its directory.
pub open spec fn safe_name(s: Seq<char>) -> bool {
    s.len() > 0 && forall|k: int| 0 <= k < s.len() ==> safe_char(#[trigger] s[k])
}

/// The directory name for a docset: every unsafe character replaced by an
/// underscore, and `unknown` for no name at all.
pub open spec fn sanitized(docset: Seq<char>) -> Seq<char> {
    if docset.len() == 0 {
        "unknown"@
    } else {
        Seq::new(
            docset.len(),
            |k: int|
                if safe_char(docset[k]) {
                    docset[k]
                } else {
                    '_'
                },
        )
    }
}

/// Makes a directory name of a docset's name, so that no name such as `../evil`
/// leads out of the cache directory.
pub fn sanitize_docset(docset: &str) -> (name: String)
    ensures
        name@ == sanitized(docset@),
        safe_name(name@),
{
    let chars = text::chars_of(docset);
    if chars.len() == 0 {
        proof {
            reveal_strlit("unknown");
        }
        return "unknown".to_owned();
    }
    let mut name = String::new();
    let mut i: usize = 0;
    while i < chars.len()
        invariant
            i <= chars@.len(),
            chars@ == docset@,
            chars@.len() > 0,
            name@ == sanitized(docset@).take(i as int),
        decreases chars@.len() - i,
    {
        let c = chars[i];
        if ('a' <= c && c <= 'z') || ('A' <= c && c <= 'Z') || ('0' <= c && c <= '9') || c == '-'
            || c == '_' {
            name.push(c);
        } else {
            name.push('_');
        }
        i += 1;
        assert(name@ =~= sanitized(docset@).take(i as int));
    }
    assert(name@ =~= sanitized(docset@));
    name
}

/// A safe name is its own directory name.
pub proof fn law_sanitize_keeps_safe_names(docset: Seq<char>)
    requires
        safe_name(docset),
    ensures
        sanitized(docset) == docset,
{
    assert(sanitized(docset) =~= docset);
}

/// The file for a page below the program directory: the names to be joined,
/// from the directory down.
pub open spec fn page_file(directory: Seq<char>, docset: Seq<char>, page_id: Seq<char>) -> Seq<
    Seq<char>,
> {
    seq![directory, "translated"@, sanitized(docset), text_hash(page_id) + ".json"@]
}

/// A hash is sixteen digits in base sixteen.
pub proof fn law_hash_digits(s: Seq<char>)
    ensures
        text_hash(s).len() == 16,
        forall|k: int| 0 <= k < 16 ==> digits::hex_char(#[trigger] text_hash(s)[k]),
{
    digits::lemma_hexadecimal(fnv1a(vstd::utf8::encode_utf8(s)) as nat, 16);
}

/// Whatever the docset and the page are called, the file lies in a directory
/// of its own below the cache directory: the directory's name is safe, and the
/// file's name is a safe name and the ending `.json`.
pub proof fn law_page_file_stays_inside(
    directory: Seq<char>,
    docset: Seq<char>,
    page_id: Seq<char>,
)
    ensures
        page_file(directory, docset, page_id).take(2) == seq![directory, "translated"@],
        page_file(directory, docset, page_id).len() == 4,
        safe_name(page_file(directory, docset, page_id)[2]),
        page_file(directory, docset, page_id)[3] == text_hash(page_id) + ".json"@,
        safe_name(text_hash(page_id)),
{
    assert(page_file(directory, docset, page_id).take(2) =~= seq![directory, "translated"@]);
    reveal_strlit("unknown");
    law_hash_digits(page_id);
}

/// The file that holds the translation of a page: the names to be joined, from
/// the program directory down. Where that directory could not be found, the
/// error is handed on.
pub fn cache_path(program_directory: Result<String, String>, docset: &str, page_id: &str) -> (path:
    Result<Vec<String>, String>)
    ensures
        match (program_directory, path) {
            (Ok(directory), Ok(names)) => text::views(names@) == page_file(
                directory@,
                docset@,
                page_id@,
            ),
            (Err(asked), Err(error)) => error == asked,
            _ => false,
        },
{
    match program_directory {
        Ok(directory) => {
            let ghost base = directory@;
            let mut names: Vec<String> = Vec::new();
            names.push(directory);
            names.push("translated".to_owned());
            names.push(sanitize_docset(docset));
            let mut file = hash_text(page_id);
            file.append(".json");
            names.push(file);
            assert(text::views(names@) =~= page_file(base, docset@, page_id@));
            Ok(names)
        },
        Err(error) => Err(error),
    }
}

proof fn lemma_hash_folds(bytes: Seq<u8>, step: spec_fn(u64, u8) -> u64)
    requires
        forall|h: u64, b: u8| #[trigger] step(h, b) as int == ((h ^ (b as u64)) as int
            * 1099511628211) % 0x1_0000_0000_0000_0000,
    ensures
        fnv1a(bytes) == bytes.fold_left(14695981039346656037u64, step),
    decreases bytes.len(),
{
    if bytes.len() > 0 {
        lemma_hash_folds(bytes.drop_last(), step);
        let before = fnv1a(bytes.drop_last());
        assert(step(before, bytes.last()) as int == ((before ^ (bytes.last() as u64)) as int
            * 1099511628211) % 0x1_0000_0000_0000_0000);
    }
}

/// Every byte of a text counts. Its hash is read as a number in base sixteen with sixteen
/// digits. That number starts from 14695981039346656037 and for each byte of the text in
/// UTF-8, from the first to the last, takes the exclusive or with the byte and the product
/// with 1099511628211, modulo two to the power of 64.
pub proof fn law_every_byte_counts(
    s: Seq<char>,
    step: spec_fn(u64, u8) -> u64,
    read: spec_fn(int, char) -> int,
)
    requires
        forall|h: u64, b: u8| #[trigger] step(h, b) as int == ((h ^ (b as u64)) as int
            * 1099511628211) % 0x1_0000_0000_0000_0000,
        forall|v: int, c: char| '0' <= c <= '9' ==> #[trigger] read(v, c) == 16 * v + (c as int
            - '0' as int),
        forall|v: int, c: char| 'a' <= c <= 'f' ==> #[trigger] read(v, c) == 16 * v + 10 + (
        c as int - 'a' as int),
    ensures
        text_hash(s).len() == 16,
        forall|k: int|
            0 <= k < 16 ==> ('0' <= #[trigger] text_hash(s)[k] <= '9' || 'a' <= text_hash(s)[k]
                <= 'f'),
        text_hash(s).fold_left(0, read) == vstd::utf8::encode_utf8(s).fold_left(
            14695981039346656037u64,
            step,
        ) as int,
{
    let bytes = vstd::utf8::encode_utf8(s);
    law_hash_digits(s);
    lemma_hash_folds(bytes, step);
    digits::law_hexadecimal_reads_back(fnv1a(bytes) as nat, 16, read);
    assert(vstd::arithmetic::power::pow(16, 16) == 0x1_0000_0000_0000_0000) by {
        reveal_with_fuel(vstd::arithmetic::power::pow, 17);
    }
}

proof fn lemma_step_differs(a: u64, b: u64)
    requires
        a != b,
    ensures
        a.wrapping_mul(PRIME) != b.wrapping_mul(PRIME),
{
    let m = 0x1_0000_0000_0000_0000int;
    let p = 1099511628211int;
    let inverse = 14886173955864302971int;
    if a.wrapping_mul(PRIME) == b.wrapping_mul(PRIME) {
        assert((a as int * p) % m == (b as int * p) % m);
        lemma_undone(a as int, m, p, inverse);
        lemma_undone(b as int, m, p, inverse);
    }
}

proof fn lemma_undone(a: int, m: int, p: int, inverse: int)
    requires
        0 <= a < m,
        m == 0x1_0000_0000_0000_0000,
        p == 1099511628211,
        inverse == 14886173955864302971,
    ensures
        (((a * p) % m) * inverse) % m == a,
{
    vstd::arithmetic::div_mod::lemma_mul_mod_noop_left(a * p, inverse, m);
    assert(p * inverse == 887285111055 * m + 1) by (nonlinear_arith)
        requires
            m == 0x1_0000_0000_0000_0000,
            p == 1099511628211,
            inverse == 14886173955864302971,
    ;
    assert((a * p) * inverse == m * (887285111055 * a) + a) by (nonlinear_arith)
        requires
            p * inverse == 887285111055 * m + 1,
    ;
    vstd::arithmetic::div_mod::lemma_mod_multiples_vanish(887285111055 * a, a, m);
    vstd::arithmetic::div_mod::lemma_small_mod(a as nat, m as nat);
}

proof fn lemma_hash_differs_on(a: Seq<u8>, b: Seq<u8>, rest: Seq<u8>)
    requires
        fnv1a(a) != fnv1a(b),
    ensures
        fnv1a(a + rest) != fnv1a(b + rest),
    decreases rest.len(),
{
    if rest.len() == 0 {
        assert(a + rest =~= a);
        assert(b + rest =~= b);
    } else {
        let x = rest.last() as u64;
        lemma_hash_differs_on(a, b, rest.drop_last());
        assert((a + rest).drop_last() =~= a + rest.drop_last());
        assert((b + rest).drop_last() =~= b + rest.drop_last());
        let left = fnv1a(a + rest.drop_last());
        let right = fnv1a(b + rest.drop_last());
        assert(left != right ==> left ^ x != right ^ x) by (bit_vector);
        lemma_step_differs(left ^ x, right ^ x);
    }
}

/// Two texts that differ in a single byte, be it the last or any other, never share a hash.
pub proof fn law_single_byte_counts(
    s: Seq<char>,
    t: Seq<char>,
    before: Seq<u8>,
    x: u8,
    y: u8,
    rest: Seq<u8>,
)
    requires
        vstd::utf8::encode_utf8(s) == before.push(x) + rest,
        vstd::utf8::encode_utf8(t) == before.push(y) + rest,
        x != y,
    ensures
        text_hash(s) != text_hash(t),
{
    assert(before.push(x).drop_last() =~= before);
    assert(before.push(y).drop_last() =~= before);
    let h = fnv1a(before);
    assert(x != y ==> h ^ (x as u64) != h ^ (y as u64)) by (bit_vector);
    lemma_step_differs(h ^ (x as u64), h ^ (y as u64));
    lemma_hash_differs_on(before.push(x), before.push(y), rest);
    let step = |g: u64, b: u8| (g ^ (b as u64)).wrapping_mul(PRIME);
    let read = |v: int, c: char|
        if c <= '9' {
            16 * v + (c as int - 48)
        } else {
            16 * v + 10 + (c as int - 97)
        };
    lemma_hash_folds(vstd::utf8::encode_utf8(s), step);
    lemma_hash_folds(vstd::utf8::encode_utf8(t), step);
    law_every_byte_counts(s, step, read);
    law_every_byte_counts(t, step, read);
}

/// The directory name for a docset keeps its letters and digits of ASCII, its hyphens and
/// its underscores, each in its place, and has an underscore for every other character.
pub proof fn law_docset_keeps_its_characters(docset: Seq<char>)
    ensures
        docset.len() > 0 ==> sanitized(docset).len() == docset.len(),
        forall|k: int|
            0 <= k < docset.len() ==> #[trigger] sanitized(docset)[k] == if (docset[k] as u32) < 128
                && ('a' <= docset[k] <= 'z' || 'A' <= docset[k] <= 'Z' || '0' <= docset[k] <= '9'
                || docset[k] == '-' || docset[k] == '_') {
                docset[k]
            } else {
                '_'
            },
        docset.len() == 0 ==> sanitized(docset) == "unknown"@,
{
}

/// A page is kept under the name of its docset and the hash of its identifier, so that the
/// path tells which page it is for as far as the hash does.
pub proof fn law_page_file_names_the_page(
    directory: Seq<char>,
    docset: Seq<char>,
    page_id: Seq<char>,
)
    ensures
        page_file(directory, docset, page_id) == seq![
            directory,
            "translated"@,
            sanitized(docset),
            text_hash(page_id) + ".json"@,
        ],
{
}

} // verus!
