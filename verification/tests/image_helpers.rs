//! Tests for the image-configuration generators and layout arithmetic.

use hecate_pkg::{
    Branding, ComponentInjector, Components, HecateConfig, IsoManager, Metadata,
    NativeIsoBuilder, Optimizations, Scripts,
};
use hecate_pkg::imaging::{IsoDirEntry, IsoFileEntry};

fn image_config() -> HecateConfig {
    HecateConfig {
        metadata: Metadata {
            name: "HecateOS".to_string(),
            version: "0.1.0".to_string(),
            base_distro: "Ubuntu".to_string(),
            architecture: "amd64".to_string(),
        },
        components: Components {
            include_binaries: vec!["hecated".to_string()],
            include_source: false,
            include_docs: true,
            additional_packages: Vec::new(),
        },
        optimizations: Optimizations {
            kernel_params: vec!["mitigations=off".to_string(), "quiet".to_string()],
            sysctl_settings: vec![
                ("vm.swappiness".to_string(), "10".to_string()),
                ("vm.dirty_ratio".to_string(), "10".to_string()),
            ],
            cpu_governor: "performance".to_string(),
            io_scheduler: "bfq".to_string(),
            transparent_hugepages: "always".to_string(),
        },
        branding: Branding {
            distro_name: "HecateOS".to_string(),
            distro_version: "0.1.0".to_string(),
            boot_splash: None,
            wallpaper: None,
            motd: "welcome".to_string(),
        },
        scripts: Scripts { pre_install: None, post_install: None, first_boot: None },
    }
}

#[test]
fn test_generate_sysctl_config_lines() {
    let injector = ComponentInjector::new(image_config());
    let text = injector.generate_sysctl_config();
    assert_eq!(
        text,
        "# HecateOS Performance Optimizations\nvm.swappiness = 10\nvm.dirty_ratio = 10\n"
    );
}

#[test]
fn test_generate_grub_config_text() {
    let injector = ComponentInjector::new(image_config());
    let text = injector.generate_grub_config();
    assert_eq!(
        text,
        "# HecateOS GRUB Configuration\nGRUB_CMDLINE_LINUX_DEFAULT=\"mitigations=off quiet\"\nGRUB_DISTRIBUTOR=\"HecateOS\"\n"
    );
}

#[test]
fn test_iso_builder_uppercases_volume_id() {
    let builder = NativeIsoBuilder::new("hecate".to_string());
    assert_eq!(builder.volume_id, "HECATE");
    assert_eq!(builder.publisher, "HECATEOS");
    let _ = IsoManager::new();
}

#[test]
fn test_both_endian_writes() {
    let builder = NativeIsoBuilder::new("v".to_string());
    let mut buffer = vec![0u8; 12];
    builder.write_both_endian_16(&mut buffer, 0, 0x1234);
    assert_eq!(&buffer[0..4], &[0x34, 0x12, 0x12, 0x34]);

    builder.write_both_endian_32(&mut buffer, 4, 0x0102_0304);
    assert_eq!(&buffer[4..12], &[0x04, 0x03, 0x02, 0x01, 0x01, 0x02, 0x03, 0x04]);
}

#[test]
fn test_sector_arithmetic() {
    let mut builder = NativeIsoBuilder::new("v".to_string());
    builder.directories = vec![
        IsoDirEntry { path: "/A".to_string(), parent: None, start_sector: 0 },
        IsoDirEntry { path: "/B".to_string(), parent: None, start_sector: 0 },
    ];
    builder.files = vec![
        IsoFileEntry {
            path: "a".to_string(),
            iso_path: "/A/a".to_string(),
            size: 2048,
            start_sector: 0,
        },
        IsoFileEntry {
            path: "b".to_string(),
            iso_path: "/A/b".to_string(),
            size: 2049,
            start_sector: 0,
        },
        IsoFileEntry {
            path: "c".to_string(),
            iso_path: "/B/c".to_string(),
            size: 0,
            start_sector: 0,
        },
    ];

    // 19 base + 2 directories + 1 + 2 + 0 file sectors
    assert_eq!(builder.calculate_total_sectors(), 24);
    assert_eq!(builder.calculate_path_table_size(), 24);
}
