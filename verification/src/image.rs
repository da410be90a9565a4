use vstd::prelude::*;

verus! {

/// One loadable region of a binary image: its base address and its bytes.
pub struct Section {
    pub address: u64,
    pub data: Vec<u8>,
}

/// One binary image: its sections, in file order.
pub struct Image {
    pub sections: Vec<Section>,
}

/// The section holds the `n` bytes starting at `pc`.
pub open spec fn section_covers(s: Section, pc: u32, n: nat) -> bool {
    s.address <= pc && pc - s.address + n <= s.data@.len()
}

/// The `n` bytes of the section at `pc`.
pub open spec fn section_window(s: Section, pc: u32, n: nat) -> Seq<u8>
    recommends
        section_covers(s, pc, n),
{
    s.data@.subrange(pc - s.address, pc - s.address + n)
}

/// The window the first covering section of a section list yields: four bytes
/// when the section has them, two otherwise, empty when no section covers
/// `pc`.
pub open spec fn spec_section_lookup(secs: Seq<Section>, pc: u32) -> Seq<u8>
    decreases secs.len(),
{
    if secs.len() == 0 {
        seq![]
    } else if section_covers(secs[0], pc, 2) {
        if section_covers(secs[0], pc, 4) {
            section_window(secs[0], pc, 4)
        } else {
            section_window(secs[0], pc, 2)
        }
    } else {
        spec_section_lookup(secs.drop_first(), pc)
    }
}

/// The instruction window at `pc`: the first image whose sections cover it
/// decides, images and sections probed in list order.
pub open spec fn spec_get_instruction(images: Seq<Image>, pc: u32) -> Seq<u8>
    decreases images.len(),
{
    if images.len() == 0 {
        seq![]
    } else {
        let r = spec_section_lookup(images[0].sections@, pc);
        if r.len() > 0 {
            r
        } else {
            spec_get_instruction(images.drop_first(), pc)
        }
    }
}

fn section_lookup(sections: &Vec<Section>, pc: u32) -> (res: Vec<u8>)
    ensures
        res@ == spec_section_lookup(sections@, pc),
{
    let mut j: usize = 0;
    proof {
        assert(sections@.skip(0) =~= sections@);
    }
    while j < sections.len()
        invariant
            j <= sections.len(),
            spec_section_lookup(sections@, pc) == spec_section_lookup(
                sections@.skip(j as int),
                pc,
            ),
        decreases sections.len() - j,
    {
        let s = &sections[j];
        proof {
            assert(sections@.skip(j as int)[0] == sections@[j as int]);
        }
        if s.address <= pc as u64 && (pc as u64 - s.address) + 2 <= s.data.len() as u64 {
            let off: usize = (pc as u64 - s.address) as usize;
            let n: usize = if (pc as u64 - s.address) + 4 <= s.data.len() as u64 {
                4
            } else {
                2
            };
            let mut out: Vec<u8> = Vec::new();
            let mut k: usize = 0;
            while k < n
                invariant
                    k <= n,
                    n == 2 || n == 4,
                    off + n <= s.data@.len(),
                    s.data@.len() <= usize::MAX,
                    out@ == s.data@.subrange(off as int, off + k),
                decreases n - k,
            {
                out.push(s.data[off + k]);
                proof {
                    assert(out@ =~= s.data@.subrange(off as int, off + k + 1));
                }
                k = k + 1;
            }
            proof {
                assert(out@ == section_window(sections@[j as int], pc, n as nat));
            }
            return out;
        }
        proof {
            assert(sections@.skip(j as int).drop_first() =~= sections@.skip(j as int + 1));
        }
        j = j + 1;
    }
    proof {
        assert(spec_section_lookup(sections@.skip(sections@.len() as int), pc) =~= Seq::<
            u8,
        >::empty());
    }
    Vec::new()
}

/// The 2- or 4-byte instruction window at `address`, taken from the first
/// covering section of the first covering image; empty when no image covers
/// the address.
pub fn get_instruction(images: &Vec<Image>, address: u32) -> (res: Vec<u8>)
    ensures
        res@ == spec_get_instruction(images@, address),
{
    let mut i: usize = 0;
    proof {
        assert(images@.skip(0) =~= images@);
    }
    while i < images.len()
        invariant
            i <= images.len(),
            spec_get_instruction(images@, address) == spec_get_instruction(
                images@.skip(i as int),
                address,
            ),
        decreases images.len() - i,
    {
        proof {
            assert(images@.skip(i as int)[0] == images@[i as int]);
        }
        let r = section_lookup(&images[i].sections, address);
        if r.len() > 0 {
            return r;
        }
        proof {
            assert(images@.skip(i as int).drop_first() =~= images@.skip(i as int + 1));
        }
        i = i + 1;
    }
    proof {
        assert(spec_get_instruction(images@.skip(images@.len() as int), address) =~= Seq::<
            u8,
        >::empty());
    }
    Vec::new()
}

} // verus!
