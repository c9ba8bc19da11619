//! Sequin core: group the styled variants of one shot, let the user put the
//! groups in shoot order, and assign sequential capture times so a photo
//! library that sorts by capture time shows the shoot in that order.
//!
//! Paths are carried as UTF-8 strings; image decoding, perceptual hashing
//! (floating point), file I/O and EXIF writing live with the program that
//! drives this library.
use vstd::prelude::*;

pub mod apply;
pub mod arrange;
pub mod board;
pub mod exif;
pub mod grouping;
pub mod hashing;
pub mod labels;
pub mod editor;
pub mod paths;
pub mod thumbs;
pub mod timeline;

verus! {

/// One photo on disk plus its computed hashes.
#[derive(Debug, Clone, PartialEq, Eq)]
pub struct Photo {
    pub path: String,
    /// Perceptual hash of the full image, 256 bits as 64 hex characters.
    pub hash_full: String,
    /// Perceptual hash after trimming uniform-colour borders.
    pub hash_cropped: String,
    /// Fraction of area removed by border trimming, as the bit pattern of an
    /// IEEE-754 single (0 = no border found).
    pub border_fraction_bits: u32,
    pub width: u32,
    pub height: u32,
}

/// A cluster of visually matching variants of the same shot.
#[derive(Debug, Clone, PartialEq, Eq)]
pub struct Group {
    pub photos: Vec<Photo>,
}

/// The user's arrangement: groups in timeline order, photos ordered within
/// each group.
#[derive(Debug, Clone, PartialEq, Eq)]
pub struct Arrangement {
    pub groups: Vec<Group>,
}

impl Photo {
    /// A copy of the photo that is equal to it field by field.
    pub fn duplicate(&self) -> (r: Photo)
        ensures
            r == *self,
    {
        Photo {
            path: self.path.clone(),
            hash_full: self.hash_full.clone(),
            hash_cropped: self.hash_cropped.clone(),
            border_fraction_bits: self.border_fraction_bits,
            width: self.width,
            height: self.height,
        }
    }
}

impl View for Arrangement {
    type V = Seq<Seq<Photo>>;

    /// The arrangement as a sequence of groups, each a sequence of photos.
    open spec fn view(&self) -> Seq<Seq<Photo>> {
        photos_view(self.groups@)
    }
}

/// The photos of each group.
pub open spec fn photos_view(groups: Seq<Group>) -> Seq<Seq<Photo>> {
    groups.map_values(|g: Group| g.photos@)
}

/// Total number of photos over all groups.
pub open spec fn total_photos(groups: Seq<Seq<Photo>>) -> nat
    decreases groups.len(),
{
    if groups.len() == 0 {
        0
    } else {
        total_photos(groups.drop_last()) + groups.last().len()
    }
}

impl Group {
    /// A copy of the group, photo by photo.
    pub fn duplicate(&self) -> (r: Group)
        ensures
            r.photos@ == self.photos@,
    {
        let mut photos: Vec<Photo> = Vec::new();
        let mut i: usize = 0;
        while i < self.photos.len()
            invariant
                i <= self.photos.len(),
                photos@ == self.photos@.take(i as int),
            decreases self.photos.len() - i,
        {
            photos.push(self.photos[i].duplicate());
            proof {
                assert(photos@ =~= self.photos@.take(i + 1));
            }
            i = i + 1;
        }
        proof {
            assert(self.photos@.take(i as int) =~= self.photos@);
        }
        Group { photos }
    }
}

impl Arrangement {
    /// A copy of the arrangement, group by group.
    pub fn duplicate(&self) -> (r: Arrangement)
        ensures
            r@ == self@,
    {
        let mut groups: Vec<Group> = Vec::new();
        let mut i: usize = 0;
        while i < self.groups.len()
            invariant
                i <= self.groups.len(),
                photos_view(groups@) == self@.take(i as int),
            decreases self.groups.len() - i,
        {
            let g = self.groups[i].duplicate();
            let ghost prev = groups@;
            groups.push(g);
            proof {
                assert(groups@ == prev.push(g));
                assert(photos_view(groups@) =~= photos_view(prev).push(g.photos@));
                assert(self@.take(i + 1) =~= self@.take(i as int).push(self@[i as int]));
            }
            i = i + 1;
        }
        proof {
            assert(self@.take(i as int) =~= self@);
        }
        let r = Arrangement { groups };
        proof {
            assert(r@ == photos_view(r.groups@));
        }
        r
    }

    /// Number of photos in the whole arrangement.
    pub fn photo_count(&self) -> (n: usize)
        requires
            total_photos(self@) <= usize::MAX,
        ensures
            n == total_photos(self@),
    {
        let mut n: usize = 0;
        let mut i: usize = 0;
        while i < self.groups.len()
            invariant
                i <= self.groups.len(),
                total_photos(self@) <= usize::MAX,
                n == total_photos(self@.take(i as int)),
            decreases self.groups.len() - i,
        {
            proof {
                assert(self@.take(i + 1).drop_last() =~= self@.take(i as int));
                crate::arrange::lemma_total_prefix_le(self@, i + 1);
            }
            n = n + self.groups[i].photos.len();
            i = i + 1;
        }
        proof {
            assert(self@.take(i as int) =~= self@);
        }
        n
    }
}

} // verus!
