//! Names on disk: folder slugs for saved jobs, free folder candidates, job
//! folders named by UUID, and artifact paths that cannot leave their folder.
use vstd::prelude::*;
use crate::text::{
    chars_of, string_of, is_alphanumeric, unicode_alphanumeric, push_all, push_decimal, decimal,
    push_decimal_two, decimal_two, is_whitespace, unicode_whitespace,
};

verus! {

/// The slug state after reading `name`: the characters kept so far and
/// whether a separator is pending.
pub open spec fn slug_scan(name: Seq<char>) -> (Seq<char>, bool)
    decreases name.len(),
{
    if name.len() == 0 {
        (Seq::empty(), false)
    } else {
        let (slug, separator) = slug_scan(name.drop_last());
        let c = name.last();
        if unicode_alphanumeric(c) {
            if separator && slug.len() > 0 {
                (slug.push('-').push(c), false)
            } else {
                (slug.push(c), false)
            }
        } else {
            (slug, true)
        }
    }
}

/// `s` without its trailing dashes.
pub open spec fn trim_end_dashes(s: Seq<char>) -> Seq<char>
    decreases s.len(),
{
    if s.len() > 0 && s.last() == '-' {
        trim_end_dashes(s.drop_last())
    } else {
        s
    }
}

/// `s` without its leading dashes.
pub open spec fn trim_start_dashes(s: Seq<char>) -> Seq<char>
    decreases s.len(),
{
    if s.len() > 0 && s[0] == '-' {
        trim_start_dashes(s.drop_first())
    } else {
        s
    }
}

/// The folder name for a place: letters and digits kept, every run of
/// anything else one dash between them, at most 48 characters, and
/// "toposaic" when nothing is left.
pub open spec fn folder_slug_of(name: Seq<char>) -> Seq<char> {
    let core = trim_end_dashes(trim_start_dashes(slug_scan(name).0));
    if core.len() == 0 {
        "toposaic"@
    } else {
        trim_end_dashes(if core.len() > 48 { core.subrange(0, 48) } else { core })
    }
}

/// Drops trailing dashes.
fn trim_end_in_place(s: &mut Vec<char>)
    ensures
        final(s)@ == trim_end_dashes(old(s)@),
        final(s)@.len() <= old(s)@.len(),
        final(s)@ == old(s)@.subrange(0, final(s)@.len() as int),
{
    while s.len() > 0 && s[s.len() - 1] == '-'
        invariant
            trim_end_dashes(s@) == trim_end_dashes(old(s)@),
            s@.len() <= old(s)@.len(),
            s@ == old(s)@.subrange(0, s@.len() as int),
        decreases s@.len(),
    {
        s.pop();
    }
}

/// A character a folder slug may hold: a dash, a non-ASCII character, or an
/// ASCII letter or digit.
pub open spec fn slug_char(c: char) -> bool {
    c == '-' || c > '\x7f' || ('a' <= c <= 'z') || ('A' <= c <= 'Z') || ('0' <= c <= '9')
}

/// A copy without leading dashes.
fn trim_start_dashes_of(s: &Vec<char>) -> (r: Vec<char>)
    ensures
        r@ == trim_start_dashes(s@),
        forall|i: int| 0 <= i < r@.len() ==> exists|j: int| 0 <= j < s@.len() && #[trigger] r@[i] == s@[j],
{
    let mut start: usize = 0;
    assert(s@.subrange(0, s@.len() as int) =~= s@);
    while start < s.len() && s[start] == '-'
        invariant
            start <= s@.len(),
            trim_start_dashes(s@.subrange(start as int, s@.len() as int)) == trim_start_dashes(s@),
        decreases s@.len() - start,
    {
        proof {
            let rest = s@.subrange(start as int, s@.len() as int);
            assert(rest.drop_first() =~= s@.subrange(start + 1, s@.len() as int));
        }
        start = start + 1;
    }
    let mut r: Vec<char> = Vec::new();
    let mut i: usize = start;
    while i < s.len()
        invariant
            start <= i <= s@.len(),
            r@ == s@.subrange(start as int, i as int),
        decreases s@.len() - i,
    {
        r.push(s[i]);
        i = i + 1;
        assert(r@ =~= s@.subrange(start as int, i as int));
    }
    proof {
        let rest = s@.subrange(start as int, s@.len() as int);
        assert(r@ =~= rest);
        assert(trim_start_dashes(rest) == rest);
        assert forall|i: int| 0 <= i < r@.len() implies exists|j: int| 0 <= j < s@.len() && #[trigger] r@[i] == s@[j] by {
            assert(r@[i] == s@[start + i]);
        }
    }
    r
}

/// A file-system-safe folder name built from the place the model is of.
/// Runs of anything that is not a letter or a digit become one dash, so a
/// name the user typed cannot walk out of the folder they chose.
pub fn folder_slug(name: &str) -> (slug: String)
    ensures
        slug@ == folder_slug_of(name@),
        1 <= slug@.len() <= 48,
        forall|i: int| 0 <= i < slug@.len() ==> slug_char(#[trigger] slug@[i]),
        plain_file_name(slug@),
{
    let chars = chars_of(name);
    let mut slug: Vec<char> = Vec::new();
    let mut separator = false;
    let mut i: usize = 0;
    while i < chars.len()
        invariant
            i <= chars@.len(),
            chars@ == name@,
            (slug@, separator) == slug_scan(chars@.subrange(0, i as int)),
            forall|j: int| 0 <= j < slug@.len() ==> slug_char(#[trigger] slug@[j]),
        decreases chars@.len() - i,
    {
        let c = chars[i];
        proof {
            let next = chars@.subrange(0, i + 1);
            assert(next.drop_last() =~= chars@.subrange(0, i as int));
            assert(next.last() == c);
        }
        if is_alphanumeric(c) {
            if separator && slug.len() > 0 {
                slug.push('-');
            }
            slug.push(c);
            separator = false;
        } else {
            separator = true;
        }
        i = i + 1;
    }
    assert(chars@.subrange(0, i as int) =~= name@);
    let mut core = trim_start_dashes_of(&slug);
    let ghost started = core@;
    trim_end_in_place(&mut core);
    if core.len() == 0 {
        let fallback = "toposaic";
        proof {
            reveal_strlit("toposaic");
            lemma_plain_slug("toposaic"@);
        }
        return fallback.to_owned();
    }
    proof {
        assert forall|i: int| 0 <= i < core@.len() implies slug_char(#[trigger] core@[i]) by {
            assert(core@[i] == started[i]);
            let j = choose|j: int| 0 <= j < slug@.len() && started[i] == slug@[j];
            assert(slug_char(slug@[j]));
        }
    }
    let ghost whole = core@;
    if core.len() > 48 {
        core.truncate(48);
        assert(core@ =~= whole.subrange(0, 48));
    }
    let ghost cut = core@;
    trim_end_in_place(&mut core);
    proof {
        assert(core@.len() >= 1) by {
            assert(cut[0] == whole[0]);
            lemma_trim_start_first(slug@);
            assert(whole[0] == started[0]);
            lemma_trim_end_keeps_first(cut);
        }
        assert forall|i: int| 0 <= i < core@.len() implies slug_char(#[trigger] core@[i]) by {
            assert(core@[i] == cut[i]);
            assert(cut[i] == whole[i]);
        }
        lemma_plain_slug(core@);
    }
    string_of(&core)
}

/// After trimming leading dashes, the first character is not a dash.
proof fn lemma_trim_start_first(s: Seq<char>)
    ensures
        trim_start_dashes(s).len() > 0 ==> trim_start_dashes(s)[0] != '-',
    decreases s.len(),
{
    if s.len() > 0 && s[0] == '-' {
        lemma_trim_start_first(s.drop_first());
    }
}

/// Trimming trailing dashes keeps a sequence that starts with a non-dash
/// non-empty.
proof fn lemma_trim_end_keeps_first(s: Seq<char>)
    requires
        s.len() >= 1,
        s[0] != '-',
    ensures
        trim_end_dashes(s).len() >= 1,
    decreases s.len(),
{
    if s.last() == '-' {
        lemma_trim_end_keeps_first(s.drop_last());
    }
}

/// A non-empty run of slug characters is one plain path component.
proof fn lemma_plain_slug(s: Seq<char>)
    requires
        s.len() >= 1,
        forall|i: int| 0 <= i < s.len() ==> slug_char(#[trigger] s[i]),
    ensures
        plain_file_name(s),
{
    assert(!s.contains('/')) by {
        if s.contains('/') {
            let i = choose|i: int| 0 <= i < s.len() && s[i] == '/';
            assert(slug_char(s[i]));
        }
    }
    assert(s != seq!['.']) by {
        assert(slug_char(s[0]));
    }
    assert(s != seq!['.', '.']) by {
        assert(slug_char(s[0]));
    }
}

/// The candidate folder name for a counter: the stem itself first, then
/// `stem-1`, `stem-2` and so on.
pub open spec fn candidate_name(stem: Seq<char>, suffix: nat) -> Seq<char> {
    if suffix == 0 {
        stem
    } else {
        stem + seq!['-'] + decimal(suffix)
    }
}

/// A child path below `parent`, as joining one relative component does.
pub open spec fn path_join(parent: Seq<char>, child: Seq<char>) -> Seq<char> {
    if parent.len() == 0 {
        child
    } else if parent.last() == '/' {
        parent + child
    } else {
        parent + seq!['/'] + child
    }
}

/// How many folder names a save tries before it gives up.
pub const FREE_DIRECTORY_ATTEMPTS: u32 = 1000;

/// The two paths joined by one separator.
fn join_into(parent: &Vec<char>, child: &Vec<char>) -> (path: Vec<char>)
    ensures
        path@ == path_join(parent@, child@),
{
    let mut path: Vec<char> = Vec::new();
    push_all(&mut path, parent);
    if parent.len() > 0 && parent[parent.len() - 1] != '/' {
        path.push('/');
    }
    push_all(&mut path, child);
    assert(path@ =~= path_join(parent@, child@));
    path
}

/// The path of the `suffix`-th folder a save tries inside `parent`.
pub fn free_directory_candidate(parent: &str, stem: &str, suffix: u32) -> (path: String)
    ensures
        path@ == path_join(parent@, candidate_name(stem@, suffix as nat)),
{
    let parent_chars = chars_of(parent);
    let mut name = chars_of(stem);
    if suffix > 0 {
        name.push('-');
        push_decimal(&mut name, suffix as u64);
    }
    assert(name@ =~= candidate_name(stem@, suffix as nat));
    let path = join_into(&parent_chars, &name);
    string_of(&path)
}

/// The message a save shows when every candidate folder is taken.
pub open spec fn no_free_folder_text() -> Seq<char> {
    "Could not find a free folder name."@
}

/// A folder inside `parent` that does not exist yet, starting from `stem`
/// and counting up: `taken[s]` tells whether the `s`-th candidate already
/// exists, for the candidates probed so far. The first candidate not taken,
/// among the first thousand, is the answer; a save never writes over an
/// earlier one.
pub fn free_directory(parent: &str, stem: &str, taken: &Vec<bool>) -> (r: Result<String, String>)
    ensures
        r matches Ok(path) ==> exists|s: int|
            0 <= s < FREE_DIRECTORY_ATTEMPTS && s < taken@.len() && !taken@[s] && (forall|t: int|
                0 <= t < s ==> #[trigger] taken@[t]) && path@ == path_join(parent@, candidate_name(stem@, s as nat)),
        r is Ok <==> exists|s: int| 0 <= s < FREE_DIRECTORY_ATTEMPTS && s < taken@.len() && !#[trigger] taken@[s],
        r matches Err(message) ==> message@ == no_free_folder_text(),
{
    let mut suffix: u32 = 0;
    while suffix < FREE_DIRECTORY_ATTEMPTS && (suffix as usize) < taken.len()
        invariant
            suffix <= FREE_DIRECTORY_ATTEMPTS,
            suffix <= taken@.len(),
            forall|t: int| 0 <= t < suffix ==> #[trigger] taken@[t],
        decreases FREE_DIRECTORY_ATTEMPTS - suffix,
    {
        if !taken[suffix as usize] {
            let path = free_directory_candidate(parent, stem, suffix);
            return Ok(path);
        }
        suffix = suffix + 1;
    }
    let message = "Could not find a free folder name.";
    Err(message.to_owned())
}

/// The canonical hyphenated lowercase form of the UUID that `text` spells,
/// or `None` when `uuid::Uuid::parse_str` refuses it.
pub uninterp spec fn uuid_hyphenated(text: Seq<char>) -> Option<Seq<char>>;

/// The shape of a hyphenated UUID: 36 characters, dashes at 8, 13, 18 and
/// 23, lowercase hexadecimal digits elsewhere.
pub open spec fn hyphenated_shape(s: Seq<char>) -> bool {
    &&& s.len() == 36
    &&& forall|i: int|
        0 <= i < 36 ==> if i == 8 || i == 13 || i == 18 || i == 23 {
            #[trigger] s[i] == '-'
        } else {
            ('0' <= s[i] <= '9') || ('a' <= s[i] <= 'f')
        }
}

/// `uuid::Uuid::parse_str` followed by its hyphenated `Display`: the
/// contract names the result and claims the shape `fmt.rs` writes (36
/// characters, lowercase hex digits, dashes at fixed places). Which inputs
/// parse is left to the name.
#[verifier::external_body]
fn parse_uuid_hyphenated(text: &str) -> (r: Option<String>)
    ensures
        r is Some <==> uuid_hyphenated(text@) is Some,
        r matches Some(s) ==> uuid_hyphenated(text@) == Some(s@) && hyphenated_shape(s@),
{
    uuid::Uuid::parse_str(text).ok().map(|id| id.hyphenated().to_string())
}

/// The error for a job ID that is not a UUID.
pub open spec fn invalid_job_text() -> Seq<char> {
    "The job ID is not valid."@
}

/// The error for an artifact name that cannot name a file of the job.
pub open spec fn missing_artifact_text() -> Seq<char> {
    "The requested print file does not exist."@
}

/// A name that is one plain path component: not empty, no separator, and
/// neither `.` nor `..`.
pub open spec fn plain_file_name(name: Seq<char>) -> bool {
    &&& name.len() > 0
    &&& !name.contains('/')
    &&& name != seq!['.']
    &&& name != seq!['.', '.']
}

/// Whether `name` is one plain path component.
pub fn is_plain_file_name(name: &str) -> (b: bool)
    ensures
        b == plain_file_name(name@),
{
    let chars = chars_of(name);
    if chars.len() == 0 {
        return false;
    }
    let mut i: usize = 0;
    while i < chars.len()
        invariant
            chars@ == name@,
            i <= chars@.len(),
            forall|j: int| 0 <= j < i ==> #[trigger] chars@[j] != '/',
        decreases chars@.len() - i,
    {
        if chars[i] == '/' {
            assert(chars@[i as int] == '/');
            return false;
        }
        i = i + 1;
    }
    if chars.len() == 1 && chars[0] == '.' {
        assert(chars@ =~= seq!['.']);
        return false;
    }
    if chars.len() == 2 && chars[0] == '.' && chars[1] == '.' {
        assert(chars@ =~= seq!['.', '.']);
        return false;
    }
    proof {
        if chars@.len() == 1 {
            assert(chars@ != seq!['.']) by {
                assert(seq!['.'][0] == '.');
            }
        }
        if chars@.len() == 2 {
            assert(chars@ != seq!['.', '.']) by {
                assert(seq!['.', '.'][0] == '.' && seq!['.', '.'][1] == '.');
            }
        }
    }
    true
}

/// The folder of a job below the data folder: `jobs/<uuid>`, the UUID in
/// its canonical hyphenated form.
pub open spec fn job_dir_of(data_dir: Seq<char>, id: Seq<char>) -> Seq<char> {
    path_join(path_join(data_dir, "jobs"@), id)
}

/// The folder of job `job_id` below `data_dir`; refuses an ID that is not
/// a UUID.
pub fn job_dir(data_dir: &str, job_id: &str) -> (r: Result<String, String>)
    ensures
        r is Ok <==> uuid_hyphenated(job_id@) is Some,
        r matches Ok(path) ==> uuid_hyphenated(job_id@) matches Some(id) && path@ == job_dir_of(data_dir@, id)
            && hyphenated_shape(id),
        r matches Err(message) ==> message@ == invalid_job_text(),
{
    match parse_uuid_hyphenated(job_id) {
        Some(id) => {
            let jobs = "jobs";
            let jobs_chars = chars_of(jobs);
            let parent = join_into(&chars_of(data_dir), &jobs_chars);
            let path = join_into(&parent, &chars_of(id.as_str()));
            Ok(string_of(&path))
        },
        None => {
            let message = "The job ID is not valid.";
            Err(message.to_owned())
        },
    }
}

/// Where the named artifact of a job would be: inside the job's folder,
/// under a name that is one plain path component, so no name can reach
/// outside it. Whether the file is there is for the caller to find out.
pub fn source_artifact_path(data_dir: &str, job_id: &str, artifact_name: &str) -> (r: Result<String, String>)
    ensures
        r is Ok <==> (uuid_hyphenated(job_id@) is Some && plain_file_name(artifact_name@)),
        r matches Ok(path) ==> uuid_hyphenated(job_id@) matches Some(id) && path@ == path_join(
            job_dir_of(data_dir@, id),
            artifact_name@,
        ),
        r matches Err(message) ==> if uuid_hyphenated(job_id@) is None {
            message@ == invalid_job_text()
        } else {
            message@ == missing_artifact_text()
        },
{
    let dir = job_dir(data_dir, job_id);
    match dir {
        Ok(dir) => {
            if !is_plain_file_name(artifact_name) {
                let message = "The requested print file does not exist.";
                return Err(message.to_owned());
            }
            let path = join_into(&chars_of(dir.as_str()), &chars_of(artifact_name));
            Ok(string_of(&path))
        },
        Err(message) => Err(message),
    }
}

/// An ASCII letter or digit.
pub open spec fn ascii_alphanumeric(c: char) -> bool {
    ('a' <= c <= 'z') || ('A' <= c <= 'Z') || ('0' <= c <= '9')
}

/// The lowercase form of an ASCII character; other characters unchanged.
pub open spec fn ascii_lower(c: char) -> char {
    if 'A' <= c <= 'Z' {
        (((c as u32) + 32) as u8) as char
    } else {
        c
    }
}

/// The artifact slug state after reading `name`.
pub open spec fn artifact_scan(name: Seq<char>) -> (Seq<char>, bool)
    decreases name.len(),
{
    if name.len() == 0 {
        (Seq::empty(), false)
    } else {
        let (slug, separator) = artifact_scan(name.drop_last());
        let c = name.last();
        if ascii_alphanumeric(c) {
            if separator && slug.len() > 0 {
                (slug.push('-').push(ascii_lower(c)), false)
            } else {
                (slug.push(ascii_lower(c)), false)
            }
        } else {
            (slug, true)
        }
    }
}

/// The file-name part for a marker: lowercase ASCII letters and digits,
/// every run of anything else one dash between them, at most 40 characters,
/// and "label" when nothing is left.
pub open spec fn artifact_slug_of(name: Seq<char>) -> Seq<char> {
    let slug = artifact_scan(name).0;
    if slug.len() == 0 {
        "label"@
    } else {
        trim_end_dashes(if slug.len() > 40 { slug.subrange(0, 40) } else { slug })
    }
}

/// A character an artifact slug may hold: a lowercase ASCII letter, a
/// digit, or a dash.
pub open spec fn artifact_slug_char(c: char) -> bool {
    ('a' <= c <= 'z') || ('0' <= c <= '9') || c == '-'
}

/// Clean slug text: slug characters only, no dash first or last, and no
/// two dashes in a row.
pub open spec fn clean_slug(s: Seq<char>) -> bool {
    &&& forall|i: int| 0 <= i < s.len() ==> artifact_slug_char(#[trigger] s[i])
    &&& s.len() > 0 ==> s[0] != '-' && s.last() != '-'
    &&& forall|i: int| 0 <= i < s.len() - 1 ==> !(#[trigger] s[i] == '-' && s[i + 1] == '-')
}

/// Lower-casing an ASCII letter or digit gives a lowercase letter or digit.
proof fn lemma_lower_alphanumeric(c: char)
    requires
        ascii_alphanumeric(c),
    ensures
        ('a' <= ascii_lower(c) <= 'z') || ('0' <= ascii_lower(c) <= '9'),
{
    if 'A' <= c <= 'Z' {
        let v = c as u32;
        assert(65 <= v <= 90);
        assert((((v + 32) as u8) as char) as u32 == v + 32);
    }
}

/// The scan keeps clean text, empty exactly when no ASCII letter or digit
/// was read.
proof fn lemma_artifact_scan_clean(name: Seq<char>)
    ensures
        clean_slug(artifact_scan(name).0),
        artifact_scan(name).0.len() == 0 <==> forall|i: int| 0 <= i < name.len() ==> !ascii_alphanumeric(#[trigger] name[i]),
    decreases name.len(),
{
    if name.len() > 0 {
        let rest = name.drop_last();
        lemma_artifact_scan_clean(rest);
        let c = name.last();
        let (slug, separator) = artifact_scan(rest);
        let out = artifact_scan(name).0;
        if ascii_alphanumeric(c) {
            lemma_lower_alphanumeric(c);
            assert(ascii_alphanumeric(name[name.len() - 1]));
            assert forall|i: int| 0 <= i < out.len() implies artifact_slug_char(#[trigger] out[i]) by {
                if i < slug.len() {
                    assert(out[i] == slug[i]);
                }
            }
            assert forall|i: int| 0 <= i < out.len() - 1 implies !(#[trigger] out[i] == '-' && out[i + 1] == '-') by {
                if i + 1 < slug.len() {
                    assert(out[i] == slug[i] && out[i + 1] == slug[i + 1]);
                } else if i + 1 == slug.len() {
                    assert(out[i] == slug.last());
                }
            }
            if slug.len() > 0 {
                assert(out[0] == slug[0]);
            }
        } else {
            if slug.len() == 0 {
                assert forall|i: int| 0 <= i < name.len() implies !ascii_alphanumeric(#[trigger] name[i]) by {
                    if i < rest.len() {
                        assert(name[i] == rest[i]);
                    }
                }
            } else {
                let j = choose|j: int| 0 <= j < rest.len() && ascii_alphanumeric(#[trigger] rest[j]);
                assert(name[j] == rest[j]);
            }
        }
        if out.len() == 0 {
            assert forall|i: int| 0 <= i < rest.len() implies !ascii_alphanumeric(#[trigger] rest[i]) by {
                assert(name[i] == rest[i]);
            }
        }
    }
}

/// Dropping trailing dashes from text whose first character is no dash
/// keeps it clean and non-empty and leaves no dash last.
proof fn lemma_trim_end_clean(s: Seq<char>)
    requires
        s.len() > 0,
        s[0] != '-',
        forall|i: int| 0 <= i < s.len() ==> artifact_slug_char(#[trigger] s[i]),
        forall|i: int| 0 <= i < s.len() - 1 ==> !(#[trigger] s[i] == '-' && s[i + 1] == '-'),
    ensures
        clean_slug(trim_end_dashes(s)),
        1 <= trim_end_dashes(s).len() <= s.len(),
    decreases s.len(),
{
    if s.last() == '-' {
        let r = s.drop_last();
        assert(s.len() > 1);
        assert(r[0] == s[0]);
        assert forall|i: int| 0 <= i < r.len() - 1 implies !(#[trigger] r[i] == '-' && r[i + 1] == '-') by {
            assert(r[i] == s[i] && r[i + 1] == s[i + 1]);
        }
        lemma_trim_end_clean(r);
    }
}

/// Artifact slugs are clean file-name parts: 1 to 40 characters, lowercase
/// ASCII letters and digits with single dashes between runs, never a dash
/// first or last; a name with no ASCII letter or digit gives "label".
pub proof fn law_artifact_slugs_are_clean(name: Seq<char>)
    ensures
        1 <= artifact_slug_of(name).len() <= 40,
        clean_slug(artifact_slug_of(name)),
        artifact_slug_of(name)[0] != '-',
        artifact_slug_of(name).last() != '-',
        (forall|i: int| 0 <= i < name.len() ==> !ascii_alphanumeric(#[trigger] name[i])) ==> artifact_slug_of(name)
            == "label"@,
{
    lemma_artifact_scan_clean(name);
    let slug = artifact_scan(name).0;
    if slug.len() == 0 {
        reveal_strlit("label");
        assert("label"@.len() == 5);
        assert forall|i: int| 0 <= i < 5 implies artifact_slug_char(#[trigger] "label"@[i]) by {}
    } else {
        let cut = if slug.len() > 40 { slug.subrange(0, 40) } else { slug };
        assert forall|i: int| 0 <= i < cut.len() implies artifact_slug_char(#[trigger] cut[i]) by {
            assert(cut[i] == slug[i]);
        }
        assert forall|i: int| 0 <= i < cut.len() - 1 implies !(#[trigger] cut[i] == '-' && cut[i + 1] == '-') by {
            assert(cut[i] == slug[i] && cut[i + 1] == slug[i + 1]);
        }
        assert(cut[0] == slug[0]);
        lemma_trim_end_clean(cut);
    }
}

/// Lower-cases an ASCII capital and leaves every other character alone.
fn lower_ascii(c: char) -> (l: char)
    ensures
        l == ascii_lower(c),
{
    if 'A' <= c && c <= 'Z' {
        let code = ((c as u32) + 32) as u8;
        code as char
    } else {
        c
    }
}

/// The ASCII slug of a marker name used in artifact file names.
pub fn artifact_slug(name: &str) -> (slug: String)
    ensures
        slug@ == artifact_slug_of(name@),
{
    let chars = chars_of(name);
    let mut slug: Vec<char> = Vec::new();
    let mut separator = false;
    let mut i: usize = 0;
    while i < chars.len()
        invariant
            i <= chars@.len(),
            chars@ == name@,
            (slug@, separator) == artifact_scan(chars@.subrange(0, i as int)),
        decreases chars@.len() - i,
    {
        let c = chars[i];
        proof {
            let next = chars@.subrange(0, i + 1);
            assert(next.drop_last() =~= chars@.subrange(0, i as int));
            assert(next.last() == c);
        }
        if ('a' <= c && c <= 'z') || ('A' <= c && c <= 'Z') || ('0' <= c && c <= '9') {
            if separator && slug.len() > 0 {
                slug.push('-');
            }
            slug.push(lower_ascii(c));
            separator = false;
        } else {
            separator = true;
        }
        i = i + 1;
    }
    assert(chars@.subrange(0, i as int) =~= name@);
    if slug.len() == 0 {
        let fallback = "label";
        return fallback.to_owned();
    }
    let ghost whole = slug@;
    if slug.len() > 40 {
        slug.truncate(40);
        assert(slug@ =~= whole.subrange(0, 40));
    }
    trim_end_in_place(&mut slug);
    string_of(&slug)
}

/// The file name of one terrain piece: `terrain-solid.stl` for a solid
/// model, else `piece-<row>-<column>.stl` counted from one.
pub open spec fn piece_file_name_of(solid: bool, row: nat, column: nat) -> Seq<char> {
    if solid {
        "terrain-solid.stl"@
    } else {
        "piece-"@ + decimal(row + 1) + "-"@ + decimal(column + 1) + ".stl"@
    }
}

/// The file name of the piece at zero-based `row` and `column`.
pub fn piece_file_name(solid: bool, row: u32, column: u32) -> (name: String)
    ensures
        name@ == piece_file_name_of(solid, row as nat, column as nat),
{
    if solid {
        let name = "terrain-solid.stl";
        return name.to_owned();
    }
    let mut out = chars_of("piece-");
    push_decimal(&mut out, row as u64 + 1);
    out.push('-');
    push_decimal(&mut out, column as u64 + 1);
    push_all(&mut out, &chars_of(".stl"));
    proof {
        reveal_strlit("-");
    }
    assert(out@ =~= piece_file_name_of(solid, row as nat, column as nat));
    string_of(&out)
}

/// The file stem of tray segment `index` of `count`, laid out row by row
/// `segment_columns` wide: `terrain-tray` alone, else
/// `terrain-tray-rRR-cCC` with two-digit row and column counted from one.
pub open spec fn tray_file_stem_of(count: nat, index: nat, segment_columns: nat) -> Seq<char> {
    if count == 1 {
        "terrain-tray"@
    } else {
        "terrain-tray-r"@ + decimal_two(index / segment_columns + 1) + "-c"@ + decimal_two(
            index % segment_columns + 1,
        )
    }
}

/// The file stem of one tray segment.
pub fn tray_file_stem(count: usize, index: u32, segment_columns: u32) -> (stem: String)
    requires
        segment_columns > 0,
    ensures
        stem@ == tray_file_stem_of(count as nat, index as nat, segment_columns as nat),
{
    if count == 1 {
        let stem = "terrain-tray";
        return stem.to_owned();
    }
    let mut out = chars_of("terrain-tray-r");
    push_decimal_two(&mut out, (index / segment_columns) as u64 + 1);
    push_all(&mut out, &chars_of("-c"));
    push_decimal_two(&mut out, (index % segment_columns) as u64 + 1);
    assert(out@ =~= tray_file_stem_of(count as nat, index as nat, segment_columns as nat));
    string_of(&out)
}

/// The file stem of a marker's flag: the single blank flag is
/// `marker-flag-template`; with several, blank flags are
/// `marker-flag-blank-NN-<slug>` and labelled flags `marker-flag-NN-<slug>`,
/// numbered from one within their kind.
pub open spec fn flag_file_stem_of(blank: bool, blank_count: nat, index: nat, name: Seq<char>) -> Seq<char> {
    if blank && blank_count == 1 {
        "marker-flag-template"@
    } else if blank {
        "marker-flag-blank-"@ + decimal_two(index + 1) + "-"@ + artifact_slug_of(name)
    } else {
        "marker-flag-"@ + decimal_two(index + 1) + "-"@ + artifact_slug_of(name)
    }
}

/// The file stem of one exported flag.
pub fn flag_file_stem(blank: bool, blank_count: usize, index: u32, name: &str) -> (stem: String)
    ensures
        stem@ == flag_file_stem_of(blank, blank_count as nat, index as nat, name@),
{
    if blank && blank_count == 1 {
        let stem = "marker-flag-template";
        return stem.to_owned();
    }
    let mut out = if blank { chars_of("marker-flag-blank-") } else { chars_of("marker-flag-") };
    push_decimal_two(&mut out, index as u64 + 1);
    out.push('-');
    let slug = artifact_slug(name);
    push_all(&mut out, &chars_of(slug.as_str()));
    proof {
        reveal_strlit("-");
    }
    assert(out@ =~= flag_file_stem_of(blank, blank_count as nat, index as nat, name@));
    string_of(&out)
}

/// The project archive's file name: `terrain-solid.3mf` for a solid model,
/// else `toposaic.3mf`.
pub fn project_file_name(solid: bool) -> (name: &'static str)
    ensures
        name@ == if solid { "terrain-solid.3mf"@ } else { "toposaic.3mf"@ },
{
    if solid {
        "terrain-solid.3mf"
    } else {
        "toposaic.3mf"
    }
}

/// Every character of a decimal numeral is a digit.
pub proof fn lemma_decimal_digits(n: nat)
    ensures
        decimal(n).len() >= 1,
        forall|i: int| 0 <= i < decimal(n).len() ==> '0' <= #[trigger] decimal(n)[i] <= '9',
    decreases n,
{
    if n >= 10 {
        lemma_decimal_digits(n / 10);
        assert forall|i: int| 0 <= i < decimal(n).len() implies '0' <= #[trigger] decimal(n)[i] <= '9' by {
            if i < decimal(n / 10).len() {
                assert(decimal(n)[i] == decimal(n / 10)[i]);
            }
        }
    }
}

/// A save folder candidate built from a plain stem is itself one plain path
/// component, so the folder a save picks is a direct child of the folder
/// the user chose.
pub proof fn law_candidates_stay_plain(stem: Seq<char>, suffix: nat)
    requires
        plain_file_name(stem),
    ensures
        plain_file_name(candidate_name(stem, suffix)),
{
    if suffix > 0 {
        lemma_decimal_digits(suffix);
        let c = candidate_name(stem, suffix);
        assert(!c.contains('/')) by {
            if c.contains('/') {
                let i = choose|i: int| 0 <= i < c.len() && c[i] == '/';
                if i < stem.len() {
                    assert(stem[i] == '/');
                    assert(stem.contains('/'));
                } else if i > stem.len() {
                    assert(c[i] == decimal(suffix)[i - stem.len() - 1]);
                }
            }
        }
        assert(c.len() >= 3);
        assert(c != seq!['.']);
        assert(c != seq!['.', '.']);
    }
}

/// `s` without its leading whitespace.
pub open spec fn trim_start_whitespace(s: Seq<char>) -> Seq<char>
    decreases s.len(),
{
    if s.len() > 0 && unicode_whitespace(s[0]) {
        trim_start_whitespace(s.drop_first())
    } else {
        s
    }
}

/// `s` without its trailing whitespace.
pub open spec fn trim_end_whitespace(s: Seq<char>) -> Seq<char>
    decreases s.len(),
{
    if s.len() > 0 && unicode_whitespace(s.last()) {
        trim_end_whitespace(s.drop_last())
    } else {
        s
    }
}

/// `s` without leading or trailing whitespace, as `str::trim` leaves it.
pub open spec fn trimmed(s: Seq<char>) -> Seq<char> {
    trim_end_whitespace(trim_start_whitespace(s))
}

/// The name of an exported setup: the job's place name trimmed, or
/// "TopoSaic setup" where there is none or it is blank.
pub open spec fn setup_name_of(place_name: Option<Seq<char>>) -> Seq<char> {
    match place_name {
        Some(p) => if trimmed(p).len() > 0 {
            trimmed(p)
        } else {
            "TopoSaic setup"@
        },
        None => "TopoSaic setup"@,
    }
}

/// The name a saved setup document gives its one setup; see
/// `setup_name_of`.
pub fn setup_name(place_name: Option<&str>) -> (name: String)
    ensures
        name@ == setup_name_of(
            match place_name {
                Some(p) => Some(p@),
                None => None,
            },
        ),
{
    let text = match place_name {
        Some(p) => p,
        None => {
            return "TopoSaic setup".to_owned();
        },
    };
    let chars = chars_of(text);
    let ghost s = chars@;
    let n = chars.len();
    let mut start: usize = 0;
    assert(s.subrange(0, n as int) =~= s);
    while start < n && is_whitespace(chars[start])
        invariant
            s == chars@,
            n == s.len(),
            start <= n,
            trim_start_whitespace(s) == trim_start_whitespace(s.subrange(start as int, n as int)),
        decreases n - start,
    {
        assert(s.subrange(start as int, n as int).drop_first() =~= s.subrange(start + 1, n as int));
        start = start + 1;
    }
    assert(trim_start_whitespace(s) == s.subrange(start as int, n as int)) by {
        assert(s.subrange(0, n as int) =~= s);
    }
    let mut end: usize = n;
    while end > start && is_whitespace(chars[end - 1])
        invariant
            s == chars@,
            n == s.len(),
            start <= end <= n,
            trim_end_whitespace(s.subrange(start as int, n as int)) == trim_end_whitespace(
                s.subrange(start as int, end as int),
            ),
        decreases end - start,
    {
        assert(s.subrange(start as int, end as int).drop_last() =~= s.subrange(start as int, end - 1));
        end = end - 1;
    }
    assert(trimmed(s) == s.subrange(start as int, end as int));
    if start == end {
        return "TopoSaic setup".to_owned();
    }
    let mut kept: Vec<char> = Vec::new();
    let mut i: usize = start;
    while i < end
        invariant
            s == chars@,
            start <= i <= end <= n,
            n == s.len(),
            kept@ == s.subrange(start as int, i as int),
        decreases end - i,
    {
        kept.push(chars[i]);
        i = i + 1;
        assert(kept@ =~= s.subrange(start as int, i as int));
    }
    string_of(&kept)
}

} // verus!
