//! The tier configurations the benchmarks compare, and the byte
//! arithmetic they do on kernel datasets.

use vstd::prelude::*;

verus! {

/// A tier configuration under test: a label, the group size of each tier,
/// and optionally a fixed number of raw features.
pub struct Config {
    pub name: &'static str,
    pub tier_list: Vec<u32>,
    pub features_num_override: Option<usize>,
}

/// The configurations compared, from one tier of four to five tiers.
pub fn configs() -> (r: Vec<Config>)
    ensures
        r@.len() == 6,
        r@[0].name@ == "ODESS"@ && r@[0].tier_list@ == seq![4u32] && r@[0].features_num_override
            == Some(12usize),
        r@[1].name@ == "N2_G3-2"@ && r@[1].tier_list@ == seq![3u32, 2] && r@[1].features_num_override
            is None,
        r@[2].name@ == "N3_G4-3-2"@ && r@[2].tier_list@ == seq![4u32, 3, 2]
            && r@[2].features_num_override is None,
        r@[3].name@ == "N3_G8-4-2"@ && r@[3].tier_list@ == seq![12u32, 4, 2]
            && r@[3].features_num_override is None,
        r@[4].name@ == "N4_G6-4-3-2"@ && r@[4].tier_list@ == seq![6u32, 4, 3, 2]
            && r@[4].features_num_override is None,
        r@[5].name@ == "N5_G12-6-4-3-2"@ && r@[5].tier_list@ == seq![12u32, 6, 4, 3, 2]
            && r@[5].features_num_override is None,
{
    let mut r: Vec<Config> = Vec::new();
    r.push(Config { name: "ODESS", tier_list: vec![4], features_num_override: Some(12) });
    r.push(Config { name: "N2_G3-2", tier_list: vec![3, 2], features_num_override: None });
    r.push(Config { name: "N3_G4-3-2", tier_list: vec![4, 3, 2], features_num_override: None });
    r.push(Config { name: "N3_G8-4-2", tier_list: vec![12, 4, 2], features_num_override: None });
    r.push(Config { name: "N4_G6-4-3-2", tier_list: vec![6, 4, 3, 2], features_num_override: None });
    r.push(
        Config {
            name: "N5_G12-6-4-3-2",
            tier_list: vec![12, 6, 4, 3, 2],
            features_num_override: None,
        },
    );
    r
}

/// The contents of each file.
pub open spec fn file_views(files: Seq<Vec<u8>>) -> Seq<Seq<u8>> {
    files.map_values(|f: Vec<u8>| f@)
}

/// The files one after the other, as one byte string.
pub fn concat_files(files: &Vec<Vec<u8>>) -> (r: Vec<u8>)
    ensures
        r@ == file_views(files@).flatten(),
{
    let mut all: Vec<u8> = Vec::new();
    let mut i: usize = 0;
    proof {
        assert(file_views(files@.take(0)) =~= Seq::<Seq<u8>>::empty());
    }
    while i < files.len()
        invariant
            0 <= i <= files.len(),
            all@ == file_views(files@.take(i as int)).flatten(),
        decreases files.len() - i,
    {
        let f = &files[i];
        let ghost before = all@;
        let mut j: usize = 0;
        while j < f.len()
            invariant
                0 <= j <= f.len(),
                all@ == before + f@.take(j as int),
            decreases f.len() - j,
        {
            all.push(f[j]);
            j = j + 1;
            assert(all@ =~= before + f@.take(j as int));
        }
        proof {
            assert(f@.take(f.len() as int) =~= f@);
            assert(file_views(files@.take(i + 1)) =~= file_views(files@.take(i as int)).push(f@));
            file_views(files@.take(i as int)).lemma_flatten_push(f@);
        }
        i = i + 1;
    }
    proof {
        assert(files@.take(files.len() as int) =~= files@);
    }
    all
}

/// The number of bytes in a list of files.
pub open spec fn files_bytes(files: Seq<Vec<u8>>) -> int
    decreases files.len(),
{
    if files.len() == 0 {
        0
    } else {
        files_bytes(files.drop_last()) + files.last()@.len()
    }
}

/// The number of bytes in a list of datasets of files.
pub open spec fn datasets_bytes(sets: Seq<Vec<Vec<u8>>>) -> int
    decreases sets.len(),
{
    if sets.len() == 0 {
        0
    } else {
        datasets_bytes(sets.drop_last()) + files_bytes(sets.last()@)
    }
}

/// A prefix of a list of files holds no more bytes than the list.
proof fn lemma_files_bytes_prefix(files: Seq<Vec<u8>>, i: int)
    requires
        0 <= i <= files.len(),
    ensures
        0 <= files_bytes(files.take(i)) <= files_bytes(files),
    decreases files.len(),
{
    if files.len() > 0 {
        assert(files.drop_last().len() == files.len() - 1);
        if i < files.len() {
            lemma_files_bytes_prefix(files.drop_last(), i);
            assert(files.drop_last().take(i) =~= files.take(i));
        } else {
            assert(files.take(i) =~= files);
            lemma_files_bytes_prefix(files.drop_last(), i - 1);
        }
    }
}

/// A prefix of a list of datasets holds no more bytes than the list.
proof fn lemma_datasets_bytes_prefix(sets: Seq<Vec<Vec<u8>>>, i: int)
    requires
        0 <= i <= sets.len(),
    ensures
        0 <= datasets_bytes(sets.take(i)) <= datasets_bytes(sets),
    decreases sets.len(),
{
    if sets.len() > 0 {
        lemma_files_bytes_prefix(sets.last()@, 0);
        if i < sets.len() {
            lemma_datasets_bytes_prefix(sets.drop_last(), i);
            assert(sets.drop_last().take(i) =~= sets.take(i));
        } else {
            assert(sets.take(i) =~= sets);
            lemma_datasets_bytes_prefix(sets.drop_last(), i - 1);
        }
    }
}

/// The number of bytes in all files of all datasets, or `None` when that
/// number does not fit in a `usize`.
pub fn total_bytes(kernel_files: &Vec<Vec<Vec<u8>>>) -> (r: Option<usize>)
    ensures
        r == (if datasets_bytes(kernel_files@) <= usize::MAX {
            Some(datasets_bytes(kernel_files@) as usize)
        } else {
            None::<usize>
        }),
{
    let mut total: usize = 0;
    let mut i: usize = 0;
    while i < kernel_files.len()
        invariant
            0 <= i <= kernel_files.len(),
            total == datasets_bytes(kernel_files@.take(i as int)),
        decreases kernel_files.len() - i,
    {
        let files = &kernel_files[i];
        proof {
            assert(kernel_files@.take(i + 1).drop_last() =~= kernel_files@.take(i as int));
        }
        let mut j: usize = 0;
        let ghost base = total;
        while j < files.len()
            invariant
                0 <= j <= files.len(),
                i < kernel_files.len(),
                files == kernel_files@[i as int],
                total == base + files_bytes(files@.take(j as int)),
                base == datasets_bytes(kernel_files@.take(i as int)),
            decreases files.len() - j,
        {
            proof {
                assert(files@.take(j + 1).drop_last() =~= files@.take(j as int));
            }
            match total.checked_add(files[j].len()) {
                Some(t) => {
                    total = t;
                },
                None => {
                    proof {
                        lemma_files_bytes_prefix(files@, j + 1);
                        lemma_datasets_bytes_prefix(kernel_files@, i + 1);
                        let t = kernel_files@.take(i + 1);
                        assert(t.drop_last() =~= kernel_files@.take(i as int));
                        assert(t.last() == files);
                        assert(datasets_bytes(t) == base + files_bytes(files@));
                    }
                    return None;
                },
            }
            j = j + 1;
        }
        proof {
            assert(files@.take(files.len() as int) =~= files@);
        }
        i = i + 1;
    }
    proof {
        assert(kernel_files@.take(kernel_files.len() as int) =~= kernel_files@);
    }
    Some(total)
}

} // verus!
