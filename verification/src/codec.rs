use vstd::prelude::*;

verus! {

use crate::types::VolumeId;

/// Why the filename codec rejected a directory entry.
#[derive(Clone, Copy, Debug, PartialEq, Eq, Structural)]
pub enum VolumeFileError {
    /// The entry is a directory, or its name does not end in the volume
    /// data-file extension.
    NotVolumeFile,
    /// The name has the right shape but its identifier portion is not a
    /// decimal number that fits the identifier type.
    MalformedIdentifier,
}

/// The volume data-file suffix `.dat` as a character sequence.
pub open spec fn dat_suffix() -> Seq<char> {
    seq!['.', 'd', 'a', 't']
}

/// The name ends in `.dat` and has a non-empty part before the suffix.
pub open spec fn has_dat_suffix(name: Seq<char>) -> bool {
    name.len() >= 5 && name.subrange(name.len() - 4, name.len() as int) == dat_suffix()
}

/// The name with the `.dat` suffix removed.
pub open spec fn stem_of(name: Seq<char>) -> Seq<char> {
    name.subrange(0, name.len() - 4)
}

/// Position of the first separator `_`, or the length when none occurs.
pub open spec fn sep_pos(s: Seq<char>) -> int
    decreases s.len(),
{
    if s.len() == 0 {
        0
    } else if s[0] == '_' {
        0
    } else {
        1 + sep_pos(s.skip(1))
    }
}

/// Collection name of a stem: what stands before the first separator, or
/// the empty sequence when the stem has no separator.
pub open spec fn collection_of(stem: Seq<char>) -> Seq<char> {
    if sep_pos(stem) < stem.len() {
        stem.take(sep_pos(stem))
    } else {
        Seq::empty()
    }
}

/// Identifier text of a stem: what stands after the first separator, or the
/// whole stem when it has no separator.
pub open spec fn id_text_of(stem: Seq<char>) -> Seq<char> {
    if sep_pos(stem) < stem.len() {
        stem.skip(sep_pos(stem) + 1)
    } else {
        stem
    }
}

pub open spec fn is_decimal_digit(c: char) -> bool {
    48 <= c as int && c as int <= 57
}

pub open spec fn digit_val(c: char) -> nat {
    if is_decimal_digit(c) {
        (c as int - 48) as nat
    } else {
        0
    }
}

pub open spec fn all_digits(s: Seq<char>) -> bool {
    forall|i: int| 0 <= i < s.len() ==> is_decimal_digit(#[trigger] s[i])
}

/// Value of a digit string read as a decimal number.
pub open spec fn digits_val(s: Seq<char>) -> nat
    decreases s.len(),
{
    if s.len() == 0 {
        0
    } else {
        digits_val(s.drop_last()) * 10 + digit_val(s.last())
    }
}

/// The identifier text is a non-empty digit string whose value fits the
/// identifier type.
pub open spec fn parses_as_volume_id(s: Seq<char>) -> bool {
    s.len() > 0 && all_digits(s) && digits_val(s) <= u32::MAX
}

/// What the codec returns for a directory entry, at the mathematical level:
/// directories and entries without the `.dat` suffix are not volume files;
/// of the rest, a stem whose identifier portion is a fitting decimal number
/// yields the identifier and the collection name, and any other stem is a
/// malformed identifier.
pub open spec fn parse_spec(name: Seq<char>, is_dir: bool) -> Result<
    (VolumeId, Seq<char>),
    VolumeFileError,
> {
    if is_dir || !has_dat_suffix(name) {
        Err(VolumeFileError::NotVolumeFile)
    } else if parses_as_volume_id(id_text_of(stem_of(name))) {
        Ok(
            (
                digits_val(id_text_of(stem_of(name))) as VolumeId,
                collection_of(stem_of(name)),
            ),
        )
    } else {
        Err(VolumeFileError::MalformedIdentifier)
    }
}

/// A position with no separator before it, holding a separator or standing
/// at the end, is exactly `sep_pos`.
pub proof fn lemma_sep_pos_is(s: Seq<char>, k: int)
    requires
        0 <= k <= s.len(),
        forall|i: int| 0 <= i < k ==> s[i] != '_',
        k < s.len() ==> s[k] == '_',
    ensures
        sep_pos(s) == k,
    decreases s.len(),
{
    if s.len() == 0 {
    } else if s[0] == '_' {
        assert(k == 0);
    } else {
        assert(k >= 1) by {
            if k == 0 {
                assert(s[0] == '_');
            }
        }
        assert forall|i: int| 0 <= i < k - 1 implies s.skip(1)[i] != '_' by {
            assert(s.skip(1)[i] == s[i + 1]);
        }
        if k - 1 < s.skip(1).len() {
            assert(s.skip(1)[k - 1] == s[k]);
        }
        lemma_sep_pos_is(s.skip(1), k - 1);
    }
}

/// The value of a digit-string prefix never exceeds the value of the whole.
pub proof fn lemma_digits_val_prefix(s: Seq<char>, j: int)
    requires
        0 <= j <= s.len(),
    ensures
        digits_val(s.take(j)) <= digits_val(s),
    decreases s.len() - j,
{
    if j == s.len() {
        assert(s.take(j) =~= s);
    } else {
        assert(s.take(j + 1).drop_last() =~= s.take(j));
        assert(s.take(j + 1).last() == s[j]);
        assert(digits_val(s.take(j + 1)) == digits_val(s.take(j)) * 10 + digit_val(s[j]));
        assert(digits_val(s.take(j)) <= digits_val(s.take(j)) * 10);
        lemma_digits_val_prefix(s, j + 1);
    }
}

/// Runs the filename codec on one directory entry, given its name and
/// whether it is a directory. Returns the volume identifier and collection
/// name exactly as `parse_spec` describes them, or the matching rejection.
pub fn parse_volume_file_name(name: &str, is_dir: bool) -> (r: Result<
    (VolumeId, String),
    VolumeFileError,
>)
    ensures
        (match r {
            Ok(p) => parse_spec(name@, is_dir) == Ok::<(VolumeId, Seq<char>), VolumeFileError>(
                (p.0, p.1@),
            ),
            Err(e) => parse_spec(name@, is_dir) == Err::<(VolumeId, Seq<char>), VolumeFileError>(e),
        }),
{
    if is_dir {
        return Err(VolumeFileError::NotVolumeFile);
    }
    let n = name.unicode_len();
    if n < 5 {
        return Err(VolumeFileError::NotVolumeFile);
    }
    let c0 = name.get_char(n - 4);
    let c1 = name.get_char(n - 3);
    let c2 = name.get_char(n - 2);
    let c3 = name.get_char(n - 1);
    proof {
        let suf = name@.subrange(n - 4, n as int);
        assert(suf[0] == name@[n - 4]);
        assert(suf[1] == name@[n - 3]);
        assert(suf[2] == name@[n - 2]);
        assert(suf[3] == name@[n - 1]);
        assert(dat_suffix()[0] == '.');
        assert(dat_suffix()[1] == 'd');
        assert(dat_suffix()[2] == 'a');
        assert(dat_suffix()[3] == 't');
    }
    if !(c0 == '.' && c1 == 'd' && c2 == 'a' && c3 == 't') {
        proof {
            assert(name@.subrange(n - 4, n as int) != dat_suffix());
        }
        return Err(VolumeFileError::NotVolumeFile);
    }
    proof {
        assert(name@.subrange(n - 4, n as int) =~= dat_suffix());
        assert(has_dat_suffix(name@));
    }
    let ghost stem = stem_of(name@);
    let stem_len = n - 4;
    proof {
        assert(stem.len() == stem_len);
        assert(forall|i: int| 0 <= i < stem.len() ==> stem[i] == name@[i]);
    }

    // Find the first separator in the stem.
    let mut sep: usize = 0;
    while sep < stem_len && name.get_char(sep) != '_'
        invariant
            !is_dir,
            n == name@.len(),
            n >= 5,
            has_dat_suffix(name@),
            stem_len == n - 4,
            sep <= stem_len,
            stem == stem_of(name@),
            stem.len() == stem_len,
            forall|i: int| 0 <= i < stem.len() ==> stem[i] == name@[i],
            forall|i: int| 0 <= i < sep ==> name@[i] != '_',
        decreases stem_len - sep,
    {
        sep += 1;
    }
    proof {
        assert forall|i: int| 0 <= i < sep implies stem[i] != '_' by {
            assert(stem[i] == name@[i]);
        }
        lemma_sep_pos_is(stem, sep as int);
    }

    let has_sep = sep < stem_len;
    let id_start = if has_sep {
        sep + 1
    } else {
        0
    };
    let ghost idt = id_text_of(stem);
    proof {
        if has_sep {
            assert(idt =~= stem.skip(sep + 1));
        } else {
            assert(idt == stem);
        }
        assert(idt.len() == stem_len - id_start);
        assert(forall|i: int|
            0 <= i < idt.len() ==> idt[i] == #[trigger] stem[id_start + i]);
        assert forall|i: int| 0 <= i < idt.len() implies idt[i] == name@[id_start + i] by {
            assert(idt[i] == stem[id_start + i]);
        }
    }
    if id_start == stem_len {
        return Err(VolumeFileError::MalformedIdentifier);
    }

    // Read the identifier text as a decimal number.
    let mut acc: u64 = 0;
    let mut j = id_start;
    while j < stem_len
        invariant
            !is_dir,
            n == name@.len(),
            n >= 5,
            has_dat_suffix(name@),
            stem_len == n - 4,
            stem == stem_of(name@),
            sep_pos(stem) == sep,
            has_sep == (sep < stem_len),
            id_start == (if has_sep { sep + 1int } else { 0int }),
            idt == id_text_of(stem),
            idt.len() == stem_len - id_start,
            id_start <= j <= stem_len,
            id_start < stem_len,
            forall|i: int| 0 <= i < idt.len() ==> idt[i] == name@[id_start + i],
            acc <= u32::MAX,
            acc as nat == digits_val(idt.take(j - id_start)),
            all_digits(idt.take(j - id_start)),
        decreases stem_len - j,
    {
        let c = name.get_char(j);
        let cv = c as u32;
        proof {
            assert(idt[j - id_start] == name@[j as int]);
        }
        if cv < 48 || cv > 57 {
            proof {
                assert(!is_decimal_digit(idt[j - id_start]));
                assert(!all_digits(idt));
            }
            return Err(VolumeFileError::MalformedIdentifier);
        }
        let d = (cv - 48) as u64;
        let next = acc * 10 + d;
        proof {
            assert(idt.take(j - id_start + 1).drop_last() =~= idt.take(j - id_start));
            assert(idt.take(j - id_start + 1).last() == idt[j - id_start]);
            assert(is_decimal_digit(idt[j - id_start]));
            assert(digit_val(idt[j - id_start]) == d as nat);
            assert(digits_val(idt.take(j - id_start + 1)) == next as nat);
        }
        if next > 0xffff_ffff {
            proof {
                lemma_digits_val_prefix(idt, j - id_start + 1);
                assert(digits_val(idt) > u32::MAX);
            }
            return Err(VolumeFileError::MalformedIdentifier);
        }
        acc = next;
        j += 1;
    }
    proof {
        assert(idt.take(stem_len - id_start) =~= idt);
        assert(parses_as_volume_id(idt));
    }

    let collection = if has_sep {
        name.substring_char(0, sep).to_owned()
    } else {
        String::new()
    };
    proof {
        if has_sep {
            assert(collection_of(stem) =~= name@.subrange(0, sep as int));
        } else {
            assert(collection_of(stem) =~= Seq::<char>::empty());
        }
    }
    Ok((acc as u32, collection))
}

} // verus!
