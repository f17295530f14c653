//! The files a user attaches to a meeting: what they are, what is kept of
//! them, and where the copies live.
//!
//! Everything here looks at bytes that somebody else picked. The copy is what
//! is examined, never the file that was picked; every buffer is bounded; far
//! more is refused than accepted.
//!
//! Two separate budgets, because they bound different failures. The byte caps
//! stop the disk from running away. The character caps stop the token bill
//! from running away.

use vstd::prelude::*;
use vstd::utf8::decode_utf8;
use vstd::utf8::valid_utf8;

use crate::error::other;
use crate::error::AppError;
use crate::error::Failure;
use crate::ooxml;
use crate::round::half_even;
use crate::round::round_half_even;
use crate::paths;
use crate::sort::deep;
use crate::text;
use crate::text::opt_view;

verus! {

#[derive(Clone, Copy, PartialEq, Eq, Structural, Debug)]
pub enum Kind {
    Text,
    Pdf,
    Image,
    Office,
}

/// The word a kind is stored as.
pub open spec fn kind_name(kind: Kind) -> Seq<char> {
    match kind {
        Kind::Text => "text"@,
        Kind::Pdf => "pdf"@,
        Kind::Image => "image"@,
        Kind::Office => "office"@,
    }
}

impl Kind {
    pub fn as_str(self) -> (r: &'static str)
        ensures
            r@ == kind_name(self),
    {
        match self {
            Kind::Text => "text",
            Kind::Pdf => "pdf",
            Kind::Image => "image",
            Kind::Office => "office",
        }
    }
}

/// Disk budgets. The total is two full-size files.
pub const MAX_FILE_BYTES: u64 = 25 * 1024 * 1024;

pub const MAX_TOTAL_FILE_BYTES: i64 = 50 * 1024 * 1024;

pub const MAX_FILES: i64 = 8;

/// Content budgets: the ones that bound the bill rather than the disk.
pub const MAX_EXTRACTED_CHARS_PER_FILE: usize = ooxml::MAX_EXTRACTED_CHARS_PER_FILE;

pub const MAX_EXTRACTED_CHARS_TOTAL: usize = 200_000;

/// A byte cap does not bound page count, and page count is what a PDF costs.
pub const MAX_PDF_PAGES: usize = 20;

/// A 200 megapixel PNG compresses to almost nothing and decodes to gigabytes.
pub const MAX_IMAGE_PIXELS: u64 = 50_000_000;

// ------------------------------------------------------------------ sizes

/// The spacing of double-precision numbers at `n`, never less than 1.
pub open spec fn spacing(n: nat) -> nat
    decreases n,
{
    if n < 0x20_0000_0000_0000 {
        1
    } else {
        2 * spacing(n / 2)
    }
}

/// `n` as the nearest double-precision number.
pub open spec fn nearest(n: nat) -> nat {
    half_even(n, spacing(n)) * spacing(n)
}

/// A size in whole megabytes or kilobytes.
pub open spec fn size_text(bytes: nat) -> Seq<char> {
    if bytes >= 1048576 {
        text::digits(half_even(nearest(bytes), 1048576)) + " MB"@
    } else {
        text::digits(half_even(nearest(bytes), 1024)) + " kB"@
    }
}

fn to_nearest(n: u64) -> (r: u128)
    ensures
        r == nearest(n as nat),
        r <= 0x1_0000_0000_0000_0000,
{
    let mut m: u64 = n;
    let mut unit: u128 = 1;
    while m >= 0x20_0000_0000_0000
        invariant
            spacing(n as nat) == unit * spacing(m as nat),
            1 <= unit <= 0x1_0000,
            unit * m <= n,
            n < unit * (m + 1),
        decreases m,
    {
        proof {
            assert(unit <= 0x800) by (nonlinear_arith)
                requires
                    unit * m <= n,
                    m >= 0x20_0000_0000_0000,
                    n <= 0xffff_ffff_ffff_ffff,
            ;
            let (u, w, h) = (unit as int, m as int, (m / 2) as int);
            assert(w == 2 * h || w == 2 * h + 1);
            assert((2 * u) * h <= u * w) by (nonlinear_arith)
                requires
                    w >= 2 * h,
                    u >= 0,
            ;
            assert(u * (w + 1) <= (2 * u) * (h + 1)) by (nonlinear_arith)
                requires
                    w <= 2 * h + 1,
                    u >= 0,
            ;
            assert(spacing(m as nat) == 2 * spacing((m / 2) as nat));
            assert(unit * (2 * spacing((m / 2) as nat)) == (2 * unit) * spacing((m / 2) as nat))
                by (nonlinear_arith);
        }
        m = m / 2;
        unit = unit * 2;
    }
    proof {
        assert(spacing(m as nat) == 1);
        assert(unit * 1 == unit);
    }
    let q = round_half_even(n as u128, unit);
    proof {
        let (qi, ui, ni) = (q as int, unit as int, n as int);
        lemma_half_even_near(n as nat, unit as nat);
        assert(qi * ui <= ni + ui);
        assert(ni + ui <= 0x1_0000_0000_0000_0000 + 0x1_0000);
        lemma_nearest_bound(n as nat, unit as nat, m as nat);
        assert(qi * ui >= 0) by (nonlinear_arith)
            requires
                qi >= 0,
                ui >= 0,
        ;
    }
    q * unit
}

proof fn lemma_half_even_near(n: nat, d: nat)
    requires
        d > 0,
    ensures
        half_even(n, d) * d <= n + d,
{
    let q = n / d;
    let r = n % d;
    assert(q * d + r == n && r < d) by (nonlinear_arith)
        requires
            d > 0,
            q == n / d,
            r == n % d,
    ;
    assert((q + 1) * d == q * d + d) by (nonlinear_arith);
}

/// Rounding a 64-bit number never goes past 2^64.
proof fn lemma_nearest_bound(n: nat, unit: nat, m: nat)
    requires
        n <= u64::MAX,
        unit > 0,
        m < 0x20_0000_0000_0000,
        unit == spacing(n),
        unit * m <= n,
        n < unit * (m + 1),
    ensures
        half_even(n, unit) * unit <= 0x1_0000_0000_0000_0000,
{
    let k = lemma_spacing_divides(n, 0x1_0000_0000_0000_0000);
    assert(k * unit == 0x1_0000_0000_0000_0000);
    let q = n / unit;
    assert(q < k) by (nonlinear_arith)
        requires
            k * unit == 0x1_0000_0000_0000_0000,
            n < 0x1_0000_0000_0000_0000,
            unit > 0,
            q == n / unit,
    ;
    assert((q + 1) * unit <= k * unit) by (nonlinear_arith)
        requires
            q + 1 <= k,
    ;
    assert(q * unit <= (q + 1) * unit) by (nonlinear_arith);
}

/// At `n` within 64 bits the spacing fits 2^64 a whole number of times.
proof fn lemma_spacing_divides(n: nat, top: nat) -> (k: nat)
    requires
        n < top,
        top <= 0x1_0000_0000_0000_0000,
        top == 0x1_0000_0000_0000_0000 || top == 0x8000_0000_0000_0000 || top
            == 0x4000_0000_0000_0000 || top == 0x2000_0000_0000_0000 || top
            == 0x1000_0000_0000_0000 || top == 0x800_0000_0000_0000 || top == 0x400_0000_0000_0000
            || top == 0x200_0000_0000_0000 || top == 0x100_0000_0000_0000 || top
            == 0x80_0000_0000_0000 || top == 0x40_0000_0000_0000 || top == 0x20_0000_0000_0000,
    ensures
        k * spacing(n) == top,
        spacing(n) > 0,
    decreases n,
{
    if n < 0x20_0000_0000_0000 {
        assert(top * 1 == top);
        top
    } else {
        let k = lemma_spacing_divides(n / 2, top / 2);
        let u = spacing(n / 2);
        assert(k * (2 * u) == 2 * (k * u)) by (nonlinear_arith);
        k
    }
}

/// A size for a person to read.
pub fn human(bytes: u64) -> (r: String)
    ensures
        r@ == size_text(bytes as nat),
{
    let n = to_nearest(bytes);
    if bytes >= 1048576 {
        let q = round_half_even(n, 1048576);
        text::cat2(text::of_u128(q).as_str(), " MB")
    } else {
        let q = round_half_even(n, 1024);
        text::cat2(text::of_u128(q).as_str(), " kB")
    }
}

// ------------------------------------------------------------------ places

/// Where the copies live, given where the store does.
pub open spec fn root_of(store: Seq<char>) -> Seq<char> {
    paths::under(
        match paths::above(store) {
            Some(p) => p,
            None => "."@,
        },
        "meetings"@,
    )
}

/// Where one meeting's copies live.
pub open spec fn dir_of(store: Seq<char>, meeting_id: i64) -> Seq<char> {
    paths::under(root_of(store), text::decimal(meeting_id as int))
}

/// Beside the store, not under a hard-coded home directory: a rehearsal that
/// redirects the store must not scribble into the real one.
pub fn root(store: &str) -> (r: String)
    ensures
        r@ == root_of(store@),
{
    match paths::parent(store) {
        Some(p) => paths::join(p.as_str(), "meetings"),
        None => paths::join(".", "meetings"),
    }
}

pub fn meeting_dir(store: &str, meeting_id: i64) -> (r: String)
    ensures
        r@ == dir_of(store@, meeting_id),
{
    paths::join(root(store).as_str(), text::of_i64(meeting_id).as_str())
}

/// Two meetings never share a directory: each has its own under the root, named
/// by its id.
pub proof fn every_meeting_has_its_own_directory(store: Seq<char>, a: i64, b: i64)
    ensures
        dir_of(store, a) == dir_of(store, b) <==> a == b,
        paths::name_of(dir_of(store, a)) == Some(text::decimal(a as int)),
        paths::above(dir_of(store, a)) == Some(root_of(store)),
{
    lemma_directory(store, a);
    lemma_directory(store, b);
    text::lemma_decimal(a as int, b as int);
}

proof fn lemma_directory(store: Seq<char>, id: i64)
    ensures
        paths::name_of(dir_of(store, id)) == Some(text::decimal(id as int)),
        paths::above(dir_of(store, id)) == Some(root_of(store)),
{
    let name = text::decimal(id as int);
    let root = root_of(store);
    text::lemma_decimal(id as int, id as int);
    assert(!name.contains('/')) by {
        if name.contains('/') {
            let i = choose|i: int| 0 <= i < name.len() && name[i] == '/';
            assert(text::is_digit(name[i]) || name[i] == '-');
        }
    }
    assert forall|i: int| 0 <= i < name.len() implies name[i] != '.' by {
        assert(text::is_digit(name[i]) || name[i] == '-');
    }
    assert(name[0] != '.');
    paths::lemma_name_under(root, name);
    reveal_strlit("meetings");
    assert(root.last() == 's');
    paths::lemma_above_under(root, name);
}

/// The picked file's last name, for display only.
pub open spec fn shown_name(src: Seq<char>) -> Seq<char> {
    match paths::name_of(src) {
        Some(n) => n,
        None => "attachment"@,
    }
}

/// The picked file's last name. Never used to build a path.
pub fn display_name(src: &str) -> (r: String)
    ensures
        r@ == shown_name(src@),
{
    match paths::file_name(src) {
        Some(n) => n,
        None => text::owned("attachment"),
    }
}

pub open spec fn hex_digit(c: char) -> bool {
    0x30 <= c as int <= 0x39 || 0x61 <= c as int <= 0x66
}

/// Twenty-four lower-case hexadecimal digits.
pub open spec fn opaque(s: Seq<char>) -> bool {
    &&& s.len() == 24
    &&& forall|i: int| 0 <= i < s.len() ==> hex_digit(#[trigger] s[i])
}

/// The hexadecimal digit of a number below sixteen.
pub open spec fn hex_of(n: u8) -> char {
    if n < 10 {
        (0x30 + n) as char
    } else {
        (0x61 + (n - 10)) as char
    }
}

/// A digit for each number.
pub open spec fn hex_digits(draws: Seq<u8>) -> Seq<char> {
    draws.map_values(|n: u8| hex_of(n))
}

pub open spec fn nibbles(draws: Seq<u8>) -> bool {
    forall|i: int| 0 <= i < draws.len() ==> #[trigger] draws[i] < 16
}

/// `rand::Rng::random_range` on the thread's generator: a number from 0 to 15.
/// Which one is left to chance.
#[verifier::external_body]
fn random_nibble() -> (n: u8)
    ensures
        n < 16,
{
    rand::Rng::random_range(&mut rand::rng(), 0..16)
}

/// The name that was drawn: each number is a digit of it, in their order.
pub fn hex_name(draws: &Vec<u8>) -> (s: String)
    requires
        nibbles(draws@),
    ensures
        s@ == hex_digits(draws@),
{
    let mut s = String::new();
    let mut i: usize = 0;
    while i < draws.len()
        invariant
            i <= draws.len(),
            nibbles(draws@),
            s@.len() == i,
            forall|j: int| 0 <= j < i ==> #[trigger] s@[j] == hex_of(draws@[j]),
        decreases draws.len() - i,
    {
        let n = draws[i];
        let code: u8 = if n < 10 {
            0x30 + n
        } else {
            0x61 + (n - 10)
        };
        s.push(code as char);
        i = i + 1;
    }
    proof {
        assert(s@ =~= hex_digits(draws@));
    }
    s
}

/// The name a copy is stored under: twenty-four digits, each of them drawn.
/// Nothing a file is called has a part in it.
pub fn opaque_name() -> (s: String)
    ensures
        exists|draws: Seq<u8>|
            draws.len() == 24 && nibbles(draws) && s@ == #[trigger] hex_digits(draws),
        opaque(s@),
{
    let mut draws: Vec<u8> = Vec::new();
    while draws.len() < 24
        invariant
            draws.len() <= 24,
            nibbles(draws@),
        decreases 24 - draws.len(),
    {
        draws.push(random_nibble());
    }
    proof {
        lemma_drawn_is_opaque(draws@);
    }
    hex_name(&draws)
}

/// Twenty-four drawn numbers make a name of the form that names have.
proof fn lemma_drawn_is_opaque(draws: Seq<u8>)
    requires
        draws.len() == 24,
        nibbles(draws),
    ensures
        opaque(hex_digits(draws)),
{
    let s = hex_digits(draws);
    assert forall|i: int| 0 <= i < s.len() implies hex_digit(#[trigger] s[i]) by {
        assert(draws[i] < 16);
    }
}

/// Two draws that differ anywhere give two names.
pub proof fn different_draws_are_different_names(a: Seq<u8>, b: Seq<u8>)
    requires
        nibbles(a),
        nibbles(b),
    ensures
        hex_digits(a) == hex_digits(b) <==> a == b,
{
    if hex_digits(a) == hex_digits(b) {
        assert(a.len() == hex_digits(a).len() && b.len() == hex_digits(b).len());
        assert forall|i: int| 0 <= i < a.len() implies a[i] == b[i] by {
            assert(hex_digits(a)[i] == hex_of(a[i]) && hex_digits(b)[i] == hex_of(b[i]));
            assert(a[i] < 16 && b[i] < 16);
        }
        assert(a =~= b);
    }
}

proof fn lemma_opaque_plain(s: Seq<char>)
    requires
        opaque(s),
    ensures
        !s.contains('/'),
        s != seq!['.'],
        s != seq!['.', '.'],
{
    if s.contains('/') {
        let i = choose|i: int| 0 <= i < s.len() && s[i] == '/';
        assert(hex_digit(s[i]));
    }
}

// ----------------------------------------------------------------- staging

/// What the path the user chose points at, links not followed.
#[derive(Clone, Copy, PartialEq, Eq, Structural, Debug)]
pub enum FileType {
    Symlink,
    Directory,
    Regular,
    Other,
}

/// Where a copy goes, and what it is called on screen.
pub struct Plan {
    pub name: String,
    pub dir: String,
    pub temp: String,
    pub final_path: String,
}

/// The refusal a chosen path earns before anything is copied.
pub open spec fn source_refusal(src: Seq<char>, file_type: FileType, len: u64) -> Option<
    Seq<char>,
> {
    match file_type {
        FileType::Symlink => Some("that is a symlink, not a file"@),
        FileType::Directory => Some("that is a folder — attach the files inside it"@),
        FileType::Other => Some("that is not a regular file"@),
        FileType::Regular => if len > MAX_FILE_BYTES {
            Some(
                shown_name(src) + " is "@ + size_text(len as nat) + ", over the "@ + size_text(
                    MAX_FILE_BYTES as nat,
                ) + " limit for one file"@,
            )
        } else {
            None
        },
    }
}

/// A copy's two paths lie directly in the meeting's directory, under that name.
pub open spec fn placed_as(plan: Plan, store: Seq<char>, meeting_id: i64, stem: Seq<char>) -> bool {
    &&& plan.dir@ == dir_of(store, meeting_id)
    &&& plan.final_path@ == paths::under(plan.dir@, stem)
    &&& plan.temp@ == paths::under(plan.dir@, stem + ".tmp"@)
    &&& paths::name_of(plan.final_path@) == Some(stem)
}

/// A copy is placed under a name that was drawn: it does not come from the
/// picked file's.
pub open spec fn well_placed(plan: Plan, store: Seq<char>, meeting_id: i64) -> bool {
    exists|draws: Seq<u8>|
        draws.len() == 24 && nibbles(draws) && placed_as(
            plan,
            store,
            meeting_id,
            #[trigger] hex_digits(draws),
        )
}

/// The first half of attaching a file: whether the path may be copied at all,
/// and to where.
pub fn plan(store: &str, meeting_id: i64, src: &str, file_type: FileType, len: u64) -> (r: Result<
    Plan,
    AppError,
>)
    ensures
        match r {
            Ok(p) => source_refusal(src@, file_type, len) is None && p.name@ == shown_name(src@)
                && well_placed(p, store@, meeting_id),
            Err(e) => source_refusal(src@, file_type, len) is Some && e@ == Failure::Other(
                source_refusal(src@, file_type, len)->0,
            ),
        },
{
    let stem = opaque_name();
    plan_as(store, meeting_id, src, file_type, len, stem.as_str())
}

/// The same, with the name that was drawn.
pub fn plan_as(
    store: &str,
    meeting_id: i64,
    src: &str,
    file_type: FileType,
    len: u64,
    stem: &str,
) -> (r: Result<Plan, AppError>)
    requires
        opaque(stem@),
    ensures
        match r {
            Ok(p) => source_refusal(src@, file_type, len) is None && p.name@ == shown_name(src@)
                && placed_as(p, store@, meeting_id, stem@),
            Err(e) => source_refusal(src@, file_type, len) is Some && e@ == Failure::Other(
                source_refusal(src@, file_type, len)->0,
            ),
        },
{
    match file_type {
        FileType::Symlink => return Err(other("that is a symlink, not a file")),
        FileType::Directory => return Err(other("that is a folder — attach the files inside it")),
        FileType::Other => return Err(other("that is not a regular file")),
        FileType::Regular => {},
    }
    if len > MAX_FILE_BYTES {
        let mut m = display_name(src);
        m.append(" is ");
        m.append(human(len).as_str());
        m.append(", over the ");
        m.append(human(MAX_FILE_BYTES).as_str());
        m.append(" limit for one file");
        return Err(AppError::Other(m));
    }
    let dir = meeting_dir(store, meeting_id);
    let temp = paths::join(dir.as_str(), text::cat2(stem, ".tmp").as_str());
    let final_path = paths::join(dir.as_str(), stem);
    proof {
        lemma_opaque_plain(stem@);
        paths::lemma_name_under(dir@, stem@);
    }
    Ok(Plan { name: display_name(src), dir, temp, final_path })
}

/// What a copy that was bounded while it was made comes to.
pub open spec fn copy_outcome(written: u64) -> Result<u64, Failure> {
    if written > MAX_FILE_BYTES {
        Err(
            Failure::Other(
                "that file is over the "@ + size_text(MAX_FILE_BYTES as nat) + " limit"@,
            ),
        )
    } else if written == 0 {
        Err(Failure::Other("that file is empty"@))
    } else {
        Ok(written)
    }
}

/// Judges a copy by how many bytes were written, where copying stopped one
/// byte past the cap: hitting the cap exactly is fine and exceeding it shows.
pub fn check_copied(written: u64) -> (r: Result<u64, AppError>)
    ensures
        match r {
            Ok(n) => copy_outcome(written) == Ok::<u64, Failure>(n),
            Err(e) => copy_outcome(written) == Err::<u64, Failure>(e@),
        },
{
    if written > MAX_FILE_BYTES {
        return Err(
            AppError::Other(
                text::cat3("that file is over the ", human(MAX_FILE_BYTES).as_str(), " limit"),
            ),
        );
    }
    if written == 0 {
        return Err(other("that file is empty"));
    }
    Ok(written)
}

/// A validated copy, waiting for its row in the store.
///
/// It carries its final path from the start because the row is written before
/// the file is put in place.
pub struct Staged {
    pub name: String,
    pub kind: Kind,
    pub bytes: u64,
    pub extracted: Option<String>,
    /// Where the copy stands until its row is written.
    pub temp: String,
    /// Where it stands from then on.
    pub final_path: String,
}

impl Staged {
    /// Where the copy will stand once its row is written.
    pub fn path(&self) -> (r: &str)
        ensures
            r@ == self.final_path@,
    {
        self.final_path.as_str()
    }
}

/// The second half of attaching a file: the copy is judged by its size and
/// classified by its bytes, a PDF by what is found of it.
pub fn stage(plan: Plan, written: u64, copy: &[u8]) -> (r: Result<Staged, AppError>)
    ensures
        match r {
            Ok(s) => {
                &&& copy_outcome(written) == Ok::<u64, Failure>(s.bytes)
                &&& may_be(copy@, Ok((s.kind, opt_view(s.extracted))))
                &&& s.name@ == plan.name@
                &&& s.temp@ == plan.temp@
                &&& s.final_path@ == plan.final_path@
            },
            Err(e) => match copy_outcome(written) {
                Err(f) => e@ == f,
                Ok(_) => may_be(copy@, Err(e@)),
            },
        },
{
    let bytes = match check_copied(written) {
        Ok(n) => n,
        Err(e) => return Err(e),
    };
    match classify_and_extract(copy) {
        Ok((kind, extracted)) => Ok(
            Staged {
                name: plan.name,
                kind,
                bytes,
                extracted,
                temp: plan.temp,
                final_path: plan.final_path,
            },
        ),
        Err(e) => Err(e),
    }
}

// ---------------------------------------------------------- classification

pub open spec fn byte_prefix(b: Seq<u8>, pre: Seq<u8>) -> bool {
    pre.len() <= b.len() && b.take(pre.len() as int) == pre
}

fn has_prefix(b: &[u8], pre: &[u8]) -> (r: bool)
    ensures
        r == byte_prefix(b@, pre@),
{
    if b.len() < pre.len() {
        return false;
    }
    let mut i: usize = 0;
    while i < pre.len()
        invariant
            i <= pre.len() <= b.len(),
            forall|j: int| 0 <= j < i ==> b@[j] == pre@[j],
        decreases pre.len() - i,
    {
        if b[i] != pre[i] {
            proof {
                assert(b@.take(pre@.len() as int)[i as int] == b@[i as int]);
            }
            return false;
        }
        i = i + 1;
    }
    proof {
        assert(b@.take(pre@.len() as int) =~= pre@);
    }
    true
}

/// `%PDF-`
pub open spec fn pdf_magic() -> Seq<u8> {
    seq![0x25, 0x50, 0x44, 0x46, 0x2d]
}

/// `PK` and the mark of a local file header.
pub open spec fn zip_magic() -> Seq<u8> {
    seq![0x50, 0x4b, 0x03, 0x04]
}

/// The media type that the first bytes of an image announce.
pub open spec fn media_type(head: Seq<u8>) -> Option<Seq<char>> {
    if byte_prefix(head, seq![0x89, 0x50, 0x4e, 0x47, 0x0d, 0x0a, 0x1a, 0x0a]) {
        Some("image/png"@)
    } else if byte_prefix(head, seq![0xff, 0xd8, 0xff]) {
        Some("image/jpeg"@)
    } else if byte_prefix(head, seq![0x47, 0x49, 0x46, 0x38, 0x37, 0x61]) || byte_prefix(
        head,
        seq![0x47, 0x49, 0x46, 0x38, 0x39, 0x61],
    ) {
        Some("image/gif"@)
    } else if head.len() >= 12 && byte_prefix(head, seq![0x52, 0x49, 0x46, 0x46])
        && head.subrange(8, 12) == seq![0x57u8, 0x45, 0x42, 0x50] {
        Some("image/webp"@)
    } else {
        None
    }
}

/// The media type declared to the API, decided by the bytes and never by the
/// name, so that it always matches what is sent.
pub fn image_media_type(head: &[u8]) -> (r: Option<&'static str>)
    ensures
        match r {
            Some(s) => media_type(head@) == Some(s@),
            None => media_type(head@) is None,
        },
{
    let png: [u8; 8] = [0x89, 0x50, 0x4e, 0x47, 0x0d, 0x0a, 0x1a, 0x0a];
    let jpeg: [u8; 3] = [0xff, 0xd8, 0xff];
    let gif87: [u8; 6] = [0x47, 0x49, 0x46, 0x38, 0x37, 0x61];
    let gif89: [u8; 6] = [0x47, 0x49, 0x46, 0x38, 0x39, 0x61];
    let riff: [u8; 4] = [0x52, 0x49, 0x46, 0x46];
    proof {
        assert(png@ =~= seq![0x89, 0x50, 0x4e, 0x47, 0x0d, 0x0a, 0x1a, 0x0a]);
        assert(jpeg@ =~= seq![0xff, 0xd8, 0xff]);
        assert(gif87@ =~= seq![0x47, 0x49, 0x46, 0x38, 0x37, 0x61]);
        assert(gif89@ =~= seq![0x47, 0x49, 0x46, 0x38, 0x39, 0x61]);
        assert(riff@ =~= seq![0x52, 0x49, 0x46, 0x46]);
    }
    if has_prefix(head, png.as_slice()) {
        Some("image/png")
    } else if has_prefix(head, jpeg.as_slice()) {
        Some("image/jpeg")
    } else if has_prefix(head, gif87.as_slice()) || has_prefix(head, gif89.as_slice()) {
        Some("image/gif")
    } else if head.len() >= 12 && has_prefix(head, riff.as_slice()) && head[8] == 0x57 && head[9]
        == 0x45 && head[10] == 0x42 && head[11] == 0x50 {
        proof {
            assert(head@.subrange(8, 12) =~= seq![0x57u8, 0x45, 0x42, 0x50]);
        }
        Some("image/webp")
    } else {
        proof {
            if head@.len() >= 12 && head@.subrange(8, 12) == seq![0x57u8, 0x45, 0x42, 0x50] {
                assert(head@.subrange(8, 12)[0] == head@[8]);
                assert(head@.subrange(8, 12)[1] == head@[9]);
                assert(head@.subrange(8, 12)[2] == head@[10]);
                assert(head@.subrange(8, 12)[3] == head@[11]);
            }
        }
        None
    }
}

/// At most as much text as is kept of one file.
pub open spec fn capped(s: Seq<char>) -> Seq<char> {
    text::prefix(s, MAX_EXTRACTED_CHARS_PER_FILE as int)
}

/// The text kept of one file: capped by characters, not bytes.
pub fn cap_chars(s: &str) -> (r: String)
    ensures
        r@ == capped(s@),
{
    text::take(s, MAX_EXTRACTED_CHARS_PER_FILE)
}

/// What the bytes of a PDF fix: whether it is encrypted, and how many pages it
/// has unless it had to be decrypted to be read. `None` where they are no PDF.
pub uninterp spec fn pdf_found(pdf: Seq<u8>) -> Option<(bool, Option<usize>)>;

/// `lopdf::Document::load_mem`, then `is_encrypted`, `was_encrypted` and the
/// number of entries in `get_pages`. The bytes decide whether the document
/// loads, whether it is still encrypted and whether it was, and the pages of
/// one that was not. The number of pages of one that was decrypted is left
/// unsaid: such a document is put together in the order in which a hash map is
/// walked.
#[verifier::external_body]
fn probe_pdf(pdf: &[u8]) -> (r: Option<(bool, bool, usize)>)
    ensures
        match (r, pdf_found(pdf@)) {
            (None, None) => true,
            (Some((encrypted, decrypted, n)), Some((e, pages))) => encrypted == e && pages == (
            if decrypted {
                None
            } else {
                Some(n)
            }),
            _ => false,
        },
{
    let doc = lopdf::Document::load_mem(pdf).ok()?;
    Some((doc.is_encrypted(), doc.was_encrypted(), doc.get_pages().len()))
}

/// The width and height of an image; `None` where its header cannot be read.
pub uninterp spec fn image_dims(image: Seq<u8>) -> Option<(usize, usize)>;

/// `imagesize::blob_size`: the width and height in the image's header.
#[verifier::external_body]
fn probe_image(image: &[u8]) -> (r: Option<(usize, usize)>)
    requires
        media_type(image@) is Some,
    ensures
        r == image_dims(image@),
{
    imagesize::blob_size(image).ok().map(|d| (d.width, d.height))
}

/// `std::str::from_utf8`: the text the bytes encode, where they are UTF-8.
#[verifier::external_body]
fn from_utf8(bytes: &[u8]) -> (r: Option<String>)
    ensures
        match r {
            Some(s) => valid_utf8(bytes@) && s@ == decode_utf8(bytes@),
            None => !valid_utf8(bytes@),
        },
{
    std::str::from_utf8(bytes).ok().map(String::from)
}

/// The refusal a PDF earns by what it is.
pub open spec fn pdf_refusal(facts: Option<(bool, usize)>) -> Option<Seq<char>> {
    match facts {
        None => Some("that PDF could not be read — it may be damaged"@),
        Some((encrypted, pages)) => if encrypted {
            Some("that PDF is encrypted"@)
        } else if pages > MAX_PDF_PAGES {
            Some(
                "that PDF has "@ + text::decimal(pages as int) + " pages; the limit is "@
                    + text::decimal(MAX_PDF_PAGES as int),
            )
        } else {
            None
        },
    }
}

/// The refusal an image earns by its dimensions.
pub open spec fn image_refusal(dims: Option<(usize, usize)>) -> Option<Seq<char>> {
    match dims {
        None => Some("that image could not be read"@),
        Some((width, height)) => if width * height > MAX_IMAGE_PIXELS {
            Some(
                "that image is "@ + text::decimal(width as int) + "x"@ + text::decimal(
                    height as int,
                ) + ", too large to send"@,
            )
        } else {
            None
        },
    }
}

/// The refusal an Office document earns by its text.
pub open spec fn office_refusal(s: Seq<char>) -> Option<Seq<char>> {
    if text::blank(s) {
        Some("that Office file has no text in it"@)
    } else {
        None
    }
}

/// What a copy is, and the text extracted from it. `facts` is what was found
/// of it as a PDF, and counts only where it announces itself as one.
pub open spec fn classified(copy: Seq<u8>, facts: Option<(bool, usize)>) -> Result<
    (Kind, Option<Seq<char>>),
    Failure,
> {
    if byte_prefix(copy, pdf_magic()) {
        match pdf_refusal(facts) {
            Some(m) => Err(Failure::Other(m)),
            None => Ok((Kind::Pdf, None)),
        }
    } else if media_type(copy) is Some {
        match image_refusal(image_dims(copy)) {
            Some(m) => Err(Failure::Other(m)),
            None => Ok((Kind::Image, None)),
        }
    } else if byte_prefix(copy, zip_magic()) {
        match ooxml::office_text(copy) {
            Err(e) => Err(e),
            Ok(s) => match office_refusal(s) {
                Some(m) => Err(Failure::Other(m)),
                None => Ok((Kind::Office, Some(capped(s)))),
            },
        }
    } else if copy.contains(0) {
        Err(Failure::Other("that looks like a binary file, not text"@))
    } else if valid_utf8(copy) {
        Ok((Kind::Text, Some(capped(decode_utf8(copy)))))
    } else {
        Err(Failure::Other("that is not a text file this can read"@))
    }
}

/// Accepts or refuses a PDF by what it is.
pub fn check_pdf(facts: Option<(bool, usize)>) -> (r: Result<(), AppError>)
    ensures
        match r {
            Ok(_) => pdf_refusal(facts) is None,
            Err(e) => pdf_refusal(facts) is Some && e@ == Failure::Other(pdf_refusal(facts)->0),
        },
{
    match facts {
        None => Err(other("that PDF could not be read — it may be damaged")),
        Some((encrypted, pages)) => if encrypted {
            Err(other("that PDF is encrypted"))
        } else if pages > MAX_PDF_PAGES {
            let mut m = text::cat3(
                "that PDF has ",
                text::of_usize(pages).as_str(),
                " pages; the limit is ",
            );
            m.append(text::of_usize(MAX_PDF_PAGES).as_str());
            Err(AppError::Other(m))
        } else {
            Ok(())
        },
    }
}

/// Accepts or refuses an image by its dimensions.
pub fn check_image(dims: Option<(usize, usize)>) -> (r: Result<(), AppError>)
    ensures
        match r {
            Ok(_) => image_refusal(dims) is None,
            Err(e) => image_refusal(dims) is Some && e@ == Failure::Other(image_refusal(dims)->0),
        },
{
    match dims {
        None => Err(other("that image could not be read")),
        Some((width, height)) => {
            proof {
                assert(width * height <= 0xffff_ffff_ffff_ffff * 0xffff_ffff_ffff_ffff)
                    by (nonlinear_arith)
                    requires
                        width <= 0xffff_ffff_ffff_ffff,
                        height <= 0xffff_ffff_ffff_ffff,
                ;
            }
            let pixels: u128 = width as u128 * height as u128;
            if pixels > MAX_IMAGE_PIXELS as u128 {
                Err(
                    AppError::Other(
                        text::cat5(
                            "that image is ",
                            text::of_usize(width).as_str(),
                            "x",
                            text::of_usize(height).as_str(),
                            ", too large to send",
                        ),
                    ),
                )
            } else {
                Ok(())
            }
        },
    }
}

fn has_nul(b: &[u8]) -> (r: bool)
    ensures
        r == b@.contains(0),
{
    let mut i: usize = 0;
    while i < b.len()
        invariant
            i <= b.len(),
            forall|j: int| 0 <= j < i ==> b@[j] != 0,
        decreases b.len() - i,
    {
        if b[i] == 0 {
            return true;
        }
        i = i + 1;
    }
    false
}

/// A classification over characters.
pub open spec fn outcome_of(r: Result<(Kind, Option<String>), AppError>) -> Result<
    (Kind, Option<Seq<char>>),
    Failure,
> {
    match r {
        Ok((kind, extracted)) => Ok((kind, opt_view(extracted))),
        Err(e) => Err(e@),
    }
}

/// A finding of a PDF that agrees with what its bytes fix.
pub open spec fn fits(copy: Seq<u8>, facts: Option<(bool, usize)>) -> bool {
    match (facts, pdf_found(copy)) {
        (None, None) => true,
        (Some((encrypted, n)), Some((e, pages))) => encrypted == e && (pages is Some ==> pages->0
            == n),
        _ => false,
    }
}

/// The classification is one that the copy can have: where it is a PDF, for a
/// finding that agrees with its bytes; everywhere else, the one that its bytes
/// decide.
pub open spec fn may_be(copy: Seq<u8>, outcome: Result<(Kind, Option<Seq<char>>), Failure>) -> bool {
    if byte_prefix(copy, pdf_magic()) {
        exists|facts: Option<(bool, usize)>|
            fits(copy, facts) && outcome == #[trigger] classified(copy, facts)
    } else {
        outcome == classified(copy, None)
    }
}

/// A copy has one classification, unless it is a PDF that had to be decrypted.
pub proof fn bytes_decide_what_a_copy_is(
    copy: Seq<u8>,
    first: Result<(Kind, Option<Seq<char>>), Failure>,
    second: Result<(Kind, Option<Seq<char>>), Failure>,
)
    requires
        may_be(copy, first),
        may_be(copy, second),
    ensures
        first == second || (byte_prefix(copy, pdf_magic()) && pdf_found(copy) == Some(
            (false, None::<usize>),
        )),
{
}

/// What a copy is, decided by its bytes, and the text extracted from it.
///
/// Not by the name, which is a claim made by whoever named the file. The number
/// of pages of a PDF that had to be decrypted is not said: its bytes alone do
/// not fix it. What follows from that number is said by `classify_with`.
pub fn classify_and_extract(copy: &[u8]) -> (r: Result<(Kind, Option<String>), AppError>)
    ensures
        may_be(copy@, outcome_of(r)),
{
    let pdf: [u8; 5] = [0x25, 0x50, 0x44, 0x46, 0x2d];
    proof {
        assert(pdf@ =~= pdf_magic());
    }
    let facts = if has_prefix(copy, pdf.as_slice()) {
        match probe_pdf(copy) {
            Some((encrypted, _, pages)) => Some((encrypted, pages)),
            None => None,
        }
    } else {
        None
    };
    classify_with(copy, facts)
}

/// What a copy is, given what was found of it as a PDF.
pub fn classify_with(copy: &[u8], facts: Option<(bool, usize)>) -> (r: Result<
    (Kind, Option<String>),
    AppError,
>)
    ensures
        outcome_of(r) == classified(copy@, facts),
{
    let pdf: [u8; 5] = [0x25, 0x50, 0x44, 0x46, 0x2d];
    let pk: [u8; 4] = [0x50, 0x4b, 0x03, 0x04];
    proof {
        assert(pdf@ =~= pdf_magic());
        assert(pk@ =~= zip_magic());
    }
    if has_prefix(copy, pdf.as_slice()) {
        return match check_pdf(facts) {
            Ok(_) => Ok((Kind::Pdf, None)),
            Err(e) => Err(e),
        };
    }
    if image_media_type(copy).is_some() {
        return match check_image(probe_image(copy)) {
            Ok(_) => Ok((Kind::Image, None)),
            Err(e) => Err(e),
        };
    }
    if has_prefix(copy, pk.as_slice()) {
        return match ooxml::text(copy) {
            Err(e) => Err(e),
            Ok(s) => if text::is_blank(s.as_str()) {
                Err(other("that Office file has no text in it"))
            } else {
                Ok((Kind::Office, Some(cap_chars(s.as_str()))))
            },
        };
    }
    if has_nul(copy) {
        return Err(other("that looks like a binary file, not text"));
    }
    match from_utf8(copy) {
        Some(s) => Ok((Kind::Text, Some(cap_chars(s.as_str())))),
        None => Err(other("that is not a text file this can read")),
    }
}

// ---------------------------------------------------------------- sweeping

/// One entry of the root directory: its name, and the names in it where it can
/// be read as a directory.
pub struct SweepEntry {
    pub name: String,
    pub files: Vec<String>,
}

/// Something to remove under the root.
#[derive(Debug)]
pub enum SweepStep {
    /// The whole directory of a meeting that is gone.
    Meeting(i64),
    /// A copy that was interrupted, in the directory of that name.
    Leftover(String, String),
}

/// A thing to remove, over characters.
pub enum Removal {
    Meeting(i64),
    Leftover(Seq<char>, Seq<char>),
}

impl DeepView for SweepStep {
    type V = Removal;

    open spec fn deep_view(&self) -> Removal {
        match *self {
            SweepStep::Meeting(id) => Removal::Meeting(id),
            SweepStep::Leftover(dir, file) => Removal::Leftover(dir@, file@),
        }
    }
}

/// The meeting a directory belongs to, by its name.
pub open spec fn meeting_of(name: Seq<char>) -> Option<i64> {
    match text::integer(name) {
        Some(n) => if i64::MIN <= n <= i64::MAX {
            Some(n as i64)
        } else {
            None
        },
        None => None,
    }
}

/// Whether a file's extension is `tmp`.
pub open spec fn is_temp(file: Seq<char>) -> bool {
    text::finishes(file, ".tmp"@) && file.len() > 4
}

pub open spec fn leftovers(dir: Seq<char>, files: Seq<Seq<char>>) -> Seq<Removal>
    decreases files.len(),
{
    if files.len() == 0 {
        seq![]
    } else {
        let rest = leftovers(dir, files.drop_last());
        if is_temp(files.last()) {
            rest.push(Removal::Leftover(dir, files.last()))
        } else {
            rest
        }
    }
}

/// What one entry of the root calls for: nothing where its name is no
/// meeting's, the whole directory where the meeting is gone, and the
/// interrupted copies in it otherwise.
pub open spec fn entry_removals(
    name: Seq<char>,
    files: Seq<Seq<char>>,
    live: Seq<i64>,
) -> Seq<Removal> {
    match meeting_of(name) {
        None => seq![],
        Some(id) => if live.contains(id) {
            leftovers(name, files)
        } else {
            seq![Removal::Meeting(id)]
        },
    }
}

pub open spec fn sweep_removals(entries: Seq<SweepEntry>, live: Seq<i64>) -> Seq<Removal>
    decreases entries.len(),
{
    if entries.len() == 0 {
        seq![]
    } else {
        sweep_removals(entries.drop_last(), live) + entry_removals(
            entries.last().name@,
            text::views(entries.last().files@),
            live,
        )
    }
}

fn is_live(live: &Vec<i64>, id: i64) -> (r: bool)
    ensures
        r == live@.contains(id),
{
    let mut i: usize = 0;
    while i < live.len()
        invariant
            i <= live.len(),
            forall|j: int| 0 <= j < i ==> live@[j] != id,
        decreases live.len() - i,
    {
        if live[i] == id {
            return true;
        }
        i = i + 1;
    }
    false
}

/// Startup cleanup: what to remove under the root, given the meetings that
/// exist. Nothing is named that does not stand under the root.
pub fn sweep_orphans(entries: &Vec<SweepEntry>, live: &Vec<i64>) -> (steps: Vec<SweepStep>)
    ensures
        deep(steps@) == sweep_removals(entries@, live@),
{
    let mut steps: Vec<SweepStep> = Vec::new();
    let mut i: usize = 0;
    proof {
        assert(deep(steps@) =~= seq![]);
        assert(entries@.take(0) =~= seq![]);
    }
    while i < entries.len()
        invariant
            i <= entries.len(),
            deep(steps@) == sweep_removals(entries@.take(i as int), live@),
        decreases entries.len() - i,
    {
        let ghost done = deep(steps@);
        let name = entries[i].name.as_str();
        let files = &entries[i].files;
        proof {
            assert(entries@.take(i + 1).drop_last() =~= entries@.take(i as int));
            assert(entries@.take(i + 1).last() == entries@[i as int]);
        }
        match text::parse_i64(name) {
            None => {
                proof {
                    assert(done + Seq::<Removal>::empty() =~= done);
                }
            },
            Some(id) => if !is_live(live, id) {
                steps.push(SweepStep::Meeting(id));
                proof {
                    assert(deep(steps@) =~= done + seq![Removal::Meeting(id)]);
                }
            } else {
                let mut k: usize = 0;
                proof {
                    assert(text::views(files@).take(0) =~= seq![]);
                    assert(done + leftovers(name@, text::views(files@).take(0)) =~= done);
                }
                while k < files.len()
                    invariant
                        k <= files.len(),
                        deep(steps@) == done + leftovers(
                            name@,
                            text::views(files@).take(k as int),
                        ),
                    decreases files.len() - k,
                {
                    let ghost sofar = deep(steps@);
                    proof {
                        let fs = text::views(files@);
                        assert(fs.take(k + 1).drop_last() =~= fs.take(k as int));
                        assert(fs.take(k + 1).last() == files@[k as int]@);
                    }
                    let file = files[k].as_str();
                    if text::ends_with(file, ".tmp") && text::count(file) > 4 {
                        steps.push(SweepStep::Leftover(text::owned(name), text::owned(file)));
                        proof {
                            assert(deep(steps@) =~= sofar.push(
                                Removal::Leftover(name@, file@),
                            ));
                            assert(deep(steps@) =~= done + leftovers(
                                name@,
                                text::views(files@).take(k + 1),
                            ));
                        }
                    }
                    k = k + 1;
                }
                proof {
                    assert(text::views(files@).take(files@.len() as int) =~= text::views(files@));
                }
            },
        }
        i = i + 1;
    }
    proof {
        assert(entries@.take(entries@.len() as int) =~= entries@);
    }
    steps
}

proof fn lemma_leftovers(dir: Seq<char>, files: Seq<Seq<char>>, k: int)
    requires
        0 <= k < leftovers(dir, files).len(),
    ensures
        leftovers(dir, files)[k] matches Removal::Leftover(d, f) && d == dir && is_temp(f)
            && files.contains(f),
    decreases files.len(),
{
    let rest = leftovers(dir, files.drop_last());
    if k < rest.len() {
        lemma_leftovers(dir, files.drop_last(), k);
        let f = rest[k]->Leftover_1;
        let i = choose|i: int| 0 <= i < files.drop_last().len() && files.drop_last()[i] == f;
        assert(files[i] == f);
    } else {
        assert(files[files.len() - 1] == files.last());
    }
}

/// The sweep takes a directory only where its meeting is gone, and out of one
/// whose meeting is there only copies that were interrupted.
pub proof fn the_sweep_spares_what_is_in_use(entries: Seq<SweepEntry>, live: Seq<i64>, k: int)
    requires
        0 <= k < sweep_removals(entries, live).len(),
    ensures
        match sweep_removals(entries, live)[k] {
            Removal::Meeting(id) => !live.contains(id),
            Removal::Leftover(dir, file) => is_temp(file) && meeting_of(dir) is Some
                && live.contains(meeting_of(dir)->0),
        },
    decreases entries.len(),
{
    let head = sweep_removals(entries.drop_last(), live);
    let name = entries.last().name@;
    let files = text::views(entries.last().files@);
    let own = entry_removals(name, files, live);
    if k < head.len() {
        the_sweep_spares_what_is_in_use(entries.drop_last(), live, k);
    } else {
        assert(sweep_removals(entries, live)[k] == own[k - head.len()]);
        if meeting_of(name) is Some && live.contains(meeting_of(name)->0) {
            lemma_leftovers(name, files, k - head.len());
        }
    }
}

} // verus!
