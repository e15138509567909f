use vstd::prelude::*;

verus! {

/// The kind of a stored object, as it appears in loose-object headers and in
/// non-delta pack entries.
#[derive(Clone, Copy, PartialEq, Eq, Structural, Debug)]
pub enum ObjectKind {
    Tree,
    Blob,
    Commit,
    Tag,
}

/// The ASCII name of an object kind, without any separator.
pub open spec fn kind_name(k: ObjectKind) -> Seq<u8> {
    match k {
        ObjectKind::Tree => seq![116u8, 114u8, 101u8, 101u8],
        ObjectKind::Blob => seq![98u8, 108u8, 111u8, 98u8],
        ObjectKind::Commit => seq![99u8, 111u8, 109u8, 109u8, 105u8, 116u8],
        ObjectKind::Tag => seq![116u8, 97u8, 103u8],
    }
}

/// Every byte of a kind name is a lower-case ASCII letter: never NUL, never a
/// space, never a decimal digit.
pub proof fn lemma_kind_name_bytes(k: ObjectKind)
    ensures
        1 <= kind_name(k).len() <= 6,
        forall|i: int|
            0 <= i < kind_name(k).len() ==> 97 <= #[trigger] kind_name(k)[i] <= 122,
{
    match k {
        ObjectKind::Tree => {
            assert(forall|i: int|
                0 <= i < kind_name(k).len() ==> 97 <= #[trigger] kind_name(k)[i] <= 122);
        },
        ObjectKind::Blob => {
            assert(forall|i: int|
                0 <= i < kind_name(k).len() ==> 97 <= #[trigger] kind_name(k)[i] <= 122);
        },
        ObjectKind::Commit => {
            assert(forall|i: int|
                0 <= i < kind_name(k).len() ==> 97 <= #[trigger] kind_name(k)[i] <= 122);
        },
        ObjectKind::Tag => {
            assert(forall|i: int|
                0 <= i < kind_name(k).len() ==> 97 <= #[trigger] kind_name(k)[i] <= 122);
        },
    }
}

impl ObjectKind {
    /// Recognise an object kind by its ASCII name.
    pub fn from_bytes(s: &[u8]) -> (r: Option<ObjectKind>)
        ensures
            match r {
                Some(k) => s@ == kind_name(k),
                None => forall|k: ObjectKind| s@ != kind_name(k),
            },
    {
        if s.len() == 4 && s[0] == 116 && s[1] == 114 && s[2] == 101 && s[3] == 101 {
            proof {
                assert(s@ =~= kind_name(ObjectKind::Tree));
            }
            Some(ObjectKind::Tree)
        } else if s.len() == 4 && s[0] == 98 && s[1] == 108 && s[2] == 111 && s[3] == 98 {
            proof {
                assert(s@ =~= kind_name(ObjectKind::Blob));
            }
            Some(ObjectKind::Blob)
        } else if s.len() == 6 && s[0] == 99 && s[1] == 111 && s[2] == 109 && s[3] == 109
            && s[4] == 105 && s[5] == 116 {
            proof {
                assert(s@ =~= kind_name(ObjectKind::Commit));
            }
            Some(ObjectKind::Commit)
        } else if s.len() == 3 && s[0] == 116 && s[1] == 97 && s[2] == 103 {
            proof {
                assert(s@ =~= kind_name(ObjectKind::Tag));
            }
            Some(ObjectKind::Tag)
        } else {
            proof {
                assert forall|k: ObjectKind| s@ != kind_name(k) by {
                    if s@ == kind_name(k) {
                        match k {
                            ObjectKind::Tree => {
                                assert(s@.len() == 4 && s@[0] == 116 && s@[1] == 114 && s@[2]
                                    == 101 && s@[3] == 101);
                            },
                            ObjectKind::Blob => {
                                assert(s@.len() == 4 && s@[0] == 98 && s@[1] == 108 && s@[2]
                                    == 111 && s@[3] == 98);
                            },
                            ObjectKind::Commit => {
                                assert(s@.len() == 6 && s@[0] == 99 && s@[1] == 111 && s@[2]
                                    == 109 && s@[3] == 109 && s@[4] == 105 && s@[5] == 116);
                            },
                            ObjectKind::Tag => {
                                assert(s@.len() == 3 && s@[0] == 116 && s@[1] == 97 && s@[2]
                                    == 103);
                            },
                        }
                    }
                }
            }
            None
        }
    }
}

/// Distinct kinds have distinct names.
pub proof fn lemma_kind_name_injective(a: ObjectKind, b: ObjectKind)
    requires
        kind_name(a) == kind_name(b),
    ensures
        a == b,
{
    if a != b {
        assert(kind_name(a).len() == kind_name(b).len());
        assert(kind_name(a)[0] == kind_name(b)[0]);
        assert(kind_name(a)[1] == kind_name(b)[1]);
        assert(false);
    }
}

} // verus!
