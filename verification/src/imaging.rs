//! Value types of the OS-image build configuration, the configuration-file
//! generators, and the sector arithmetic of the native image builder.

use vstd::prelude::*;
use vstd::string::{StrSliceExecFns, StringExecFns};
use crate::strutil::{upper_of, uppercase};

verus! {

pub struct Metadata {
    pub name: String,
    pub version: String,
    pub base_distro: String,
    pub architecture: String,
}

pub struct Components {
    pub include_binaries: Vec<String>,
    pub include_source: bool,
    pub include_docs: bool,
    pub additional_packages: Vec<String>,
}

pub struct Optimizations {
    pub kernel_params: Vec<String>,
    pub sysctl_settings: Vec<(String, String)>,
    pub cpu_governor: String,
    pub io_scheduler: String,
    pub transparent_hugepages: String,
}

pub struct Branding {
    pub distro_name: String,
    pub distro_version: String,
    pub boot_splash: Option<String>,
    pub wallpaper: Option<String>,
    pub motd: String,
}

pub struct Scripts {
    pub pre_install: Option<String>,
    pub post_install: Option<String>,
    pub first_boot: Option<String>,
}

/// The whole image-build configuration.
pub struct HecateConfig {
    pub metadata: Metadata,
    pub components: Components,
    pub optimizations: Optimizations,
    pub branding: Branding,
    pub scripts: Scripts,
}

/// The rendered sysctl lines: `key = value`, one per setting, in order.
pub open spec fn sysctl_lines_of(settings: Seq<(String, String)>) -> Seq<char>
    decreases settings.len(),
{
    if settings.len() == 0 {
        Seq::empty()
    } else {
        sysctl_lines_of(settings.drop_last()) + settings.last().0@ + " = "@
            + settings.last().1@ + "\n"@
    }
}

/// The kernel parameters joined with single spaces.
pub open spec fn joined_spaced(ws: Seq<String>) -> Seq<char>
    decreases ws.len(),
{
    if ws.len() == 0 {
        Seq::empty()
    } else if ws.len() == 1 {
        ws[0]@
    } else {
        joined_spaced(ws.drop_last()) + " "@ + ws.last()@
    }
}

/// Injects the built components and generated configuration into an image
/// tree; here, the configuration-file generators.
pub struct ComponentInjector {
    pub config: HecateConfig,
}

impl ComponentInjector {
    pub fn new(config: HecateConfig) -> (m: ComponentInjector)
        ensures
            m.config == config,
    {
        ComponentInjector { config }
    }

    /// The sysctl drop-in: a banner line, then one `key = value` line per
    /// configured setting.
    pub fn generate_sysctl_config(&self) -> (r: String)
        ensures
            r@ == "# HecateOS Performance Optimizations\n"@ + sysctl_lines_of(
                self.config.optimizations.sysctl_settings@,
            ),
    {
        let mut content: String = "# HecateOS Performance Optimizations\n".to_owned();
        let settings = &self.config.optimizations.sysctl_settings;
        let ghost ss = settings@;
        let mut i: usize = 0;
        while i < settings.len()
            invariant
                i <= ss.len(),
                ss == settings@,
                content@ == "# HecateOS Performance Optimizations\n"@ + sysctl_lines_of(
                    ss.take(i as int),
                ),
            decreases ss.len() - i,
        {
            proof {
                assert(ss.take(i + 1).drop_last() =~= ss.take(i as int));
                assert(ss.take(i + 1).last() == ss[i as int]);
            }
            content.append(settings[i].0.as_str());
            content.append(" = ");
            content.append(settings[i].1.as_str());
            content.append("\n");
            assert(content@ =~= "# HecateOS Performance Optimizations\n"@ + sysctl_lines_of(
                ss.take(i + 1),
            ));
            i = i + 1;
        }
        assert(ss.take(ss.len() as int) =~= ss);
        content
    }

    /// The GRUB defaults drop-in: the kernel command line and the
    /// distributor name.
    pub fn generate_grub_config(&self) -> (r: String)
        ensures
            r@ == "# HecateOS GRUB Configuration\nGRUB_CMDLINE_LINUX_DEFAULT=\""@ + joined_spaced(
                self.config.optimizations.kernel_params@,
            ) + "\"\nGRUB_DISTRIBUTOR=\""@ + self.config.metadata.name@ + "\"\n"@,
    {
        let mut content: String =
            "# HecateOS GRUB Configuration\nGRUB_CMDLINE_LINUX_DEFAULT=\"".to_owned();
        let params = &self.config.optimizations.kernel_params;
        let ghost ws = params@;
        let mut i: usize = 0;
        while i < params.len()
            invariant
                i <= ws.len(),
                ws == params@,
                content@ == "# HecateOS GRUB Configuration\nGRUB_CMDLINE_LINUX_DEFAULT=\""@
                    + joined_spaced(ws.take(i as int)),
            decreases ws.len() - i,
        {
            proof {
                assert(ws.take(i + 1).drop_last() =~= ws.take(i as int));
                assert(ws.take(i + 1).last() == ws[i as int]);
            }
            if i > 0 {
                content.append(" ");
            }
            content.append(params[i].as_str());
            assert(content@ =~= "# HecateOS GRUB Configuration\nGRUB_CMDLINE_LINUX_DEFAULT=\""@
                + joined_spaced(ws.take(i + 1)));
            i = i + 1;
        }
        assert(ws.take(ws.len() as int) =~= ws);
        content.append("\"\nGRUB_DISTRIBUTOR=\"");
        content.append(self.config.metadata.name.as_str());
        content.append("\"\n");
        assert(content@ =~= "# HecateOS GRUB Configuration\nGRUB_CMDLINE_LINUX_DEFAULT=\""@
            + joined_spaced(ws) + "\"\nGRUB_DISTRIBUTOR=\""@ + self.config.metadata.name@
            + "\"\n"@);
        content
    }
}

/// Drives the external image tooling; the decisions modeled here need no
/// state of their own.
pub struct IsoManager;

impl IsoManager {
    pub fn new() -> (m: IsoManager) {
        IsoManager
    }
}

/// One file planned into the image.
pub struct IsoFileEntry {
    pub path: String,
    pub iso_path: String,
    pub size: u64,
    pub start_sector: u32,
}

/// One directory planned into the image.
pub struct IsoDirEntry {
    pub path: String,
    pub parent: Option<String>,
    pub start_sector: u32,
}

/// The sectors a file of `size` bytes occupies (2048-byte sectors).
pub open spec fn file_sectors(size: u64) -> int {
    (size + 2047) / 2048
}

/// The sector total over a file list.
pub open spec fn sectors_sum(fs: Seq<IsoFileEntry>) -> int
    decreases fs.len(),
{
    if fs.len() == 0 {
        0
    } else {
        sectors_sum(fs.drop_last()) + file_sectors(fs.last().size)
    }
}

/// Builds an ISO 9660 volume natively; here, its layout arithmetic.
pub struct NativeIsoBuilder {
    pub volume_id: String,
    pub publisher: String,
    pub preparer: String,
    pub files: Vec<IsoFileEntry>,
    pub directories: Vec<IsoDirEntry>,
}

impl NativeIsoBuilder {
    pub fn new(volume_id: String) -> (m: NativeIsoBuilder)
        ensures
            m.volume_id@ == upper_of(volume_id@),
            m.publisher@ == "HECATEOS"@,
            m.preparer@ == "HECATE-ISO-BUILDER"@,
            m.files@.len() == 0,
            m.directories@.len() == 0,
    {
        NativeIsoBuilder {
            volume_id: uppercase(volume_id.as_str()),
            publisher: "HECATEOS".to_owned(),
            preparer: "HECATE-ISO-BUILDER".to_owned(),
            files: Vec::new(),
            directories: Vec::new(),
        }
    }

    /// Writes a 16-bit value in both-endian form: two little-endian bytes,
    /// then two big-endian bytes.
    pub fn write_both_endian_16(&self, buffer: &mut Vec<u8>, offset: usize, value: u16)
        requires
            offset + 4 <= old(buffer)@.len(),
        ensures
            final(buffer)@ == old(buffer)@.update(offset as int, (value & 0xff) as u8).update(
                offset + 1,
                (value >> 8) as u8,
            ).update(offset + 2, (value >> 8) as u8).update(offset + 3, (value & 0xff) as u8),
    {
        let len = buffer.len();
        assert(offset + 4 <= len);
        let lo = (value & 0xff) as u8;
        let hi = (value >> 8) as u8;
        buffer.set(offset, lo);
        buffer.set(offset + 1, hi);
        buffer.set(offset + 2, hi);
        buffer.set(offset + 3, lo);
    }

    /// Writes a 32-bit value in both-endian form: four little-endian bytes,
    /// then four big-endian bytes.
    pub fn write_both_endian_32(&self, buffer: &mut Vec<u8>, offset: usize, value: u32)
        requires
            offset + 8 <= old(buffer)@.len(),
        ensures
            final(buffer)@.len() == old(buffer)@.len(),
            forall|k: int|
                0 <= k < old(buffer)@.len() && !(offset <= k < offset + 8) ==> final(buffer)@[k] == old(buffer)@[k],
            final(buffer)@[offset as int] == (value & 0xff) as u8,
            final(buffer)@[offset + 1] == ((value >> 8) & 0xff) as u8,
            final(buffer)@[offset + 2] == ((value >> 16) & 0xff) as u8,
            final(buffer)@[offset + 3] == (value >> 24) as u8,
            final(buffer)@[offset + 4] == (value >> 24) as u8,
            final(buffer)@[offset + 5] == ((value >> 16) & 0xff) as u8,
            final(buffer)@[offset + 6] == ((value >> 8) & 0xff) as u8,
            final(buffer)@[offset + 7] == (value & 0xff) as u8,
    {
        let len = buffer.len();
        assert(offset + 8 <= len);
        let b0 = (value & 0xff) as u8;
        let b1 = ((value >> 8) & 0xff) as u8;
        let b2 = ((value >> 16) & 0xff) as u8;
        let b3 = (value >> 24) as u8;
        buffer.set(offset, b0);
        buffer.set(offset + 1, b1);
        buffer.set(offset + 2, b2);
        buffer.set(offset + 3, b3);
        buffer.set(offset + 4, b3);
        buffer.set(offset + 5, b2);
        buffer.set(offset + 6, b1);
        buffer.set(offset + 7, b0);
    }

    /// Sectors needed for the whole volume: the system area and volume
    /// descriptors, one sector per directory, and the data sectors of each
    /// file (saturating at the 32-bit limit).
    pub fn calculate_total_sectors(&self) -> (r: u32)
        ensures
            r == if 19 + self.directories@.len() + sectors_sum(self.files@) > u32::MAX {
                u32::MAX as int
            } else {
                19 + self.directories@.len() + sectors_sum(self.files@)
            },
    {
        let mut sectors: u64 = 19;
        let dirs = self.directories.len() as u64;
        if dirs > u64::MAX - sectors {
            sectors = u64::MAX;
        } else {
            sectors = sectors + dirs;
        }
        let ghost fs = self.files@;
        let mut i: usize = 0;
        while i < self.files.len()
            invariant
                i <= fs.len(),
                fs == self.files@,
                sectors == if 19 + self.directories@.len() + sectors_sum(fs.take(i as int))
                    > u64::MAX {
                    u64::MAX as int
                } else {
                    19 + self.directories@.len() + sectors_sum(fs.take(i as int))
                },
            decreases fs.len() - i,
        {
            proof {
                assert(fs.take(i + 1).drop_last() =~= fs.take(i as int));
                assert(fs.take(i + 1).last() == fs[i as int]);
                Self::lemma_sectors_sum_nonneg(fs.take(i as int));
            }
            let size = self.files[i].size;
            let add: u64 = size / 2048 + if size % 2048 != 0 {
                1
            } else {
                0
            };
            assert(add == file_sectors(size)) by (nonlinear_arith)
                requires
                    add == size as int / 2048 + (if size as int % 2048 != 0 {
                        1int
                    } else {
                        0int
                    }),
                    size >= 0,
            ;
            if add > u64::MAX - sectors {
                sectors = u64::MAX;
            } else {
                sectors = sectors + add;
            }
            i = i + 1;
        }
        assert(fs.take(fs.len() as int) =~= fs);
        if sectors > 0xffff_ffff {
            u32::MAX
        } else {
            sectors as u32
        }
    }

    proof fn lemma_sectors_sum_nonneg(fs: Seq<IsoFileEntry>)
        ensures
            sectors_sum(fs) >= 0,
        decreases fs.len(),
    {
        if fs.len() > 0 {
            Self::lemma_sectors_sum_nonneg(fs.drop_last());
        }
    }

    /// The size of the path table: twelve bytes per directory (saturating
    /// at the 32-bit limit).
    pub fn calculate_path_table_size(&self) -> (r: u32)
        ensures
            r == if self.directories@.len() * 12 > u32::MAX {
                u32::MAX as int
            } else {
                (self.directories@.len() * 12) as int
            },
    {
        let n = self.directories.len() as u64;
        proof {
            assert(n * 12 == self.directories@.len() * 12) by (nonlinear_arith)
                requires
                    n == self.directories@.len(),
            ;
        }
        if n > u64::MAX / 12 {
            proof {
                assert(n * 12 > u32::MAX) by (nonlinear_arith)
                    requires
                        n > u64::MAX / 12,
                ;
            }
            u32::MAX
        } else {
            proof {
                assert(n * 12 <= u64::MAX) by (nonlinear_arith)
                    requires
                        n <= u64::MAX / 12,
                ;
            }
            let prod = n * 12;
            if prod > 0xffff_ffff {
                u32::MAX
            } else {
                prod as u32
            }
        }
    }
}

} // verus!
