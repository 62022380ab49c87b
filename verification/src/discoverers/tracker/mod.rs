//! Trackers, over HTTP and UDP.

pub mod client;
pub mod query;
pub mod udp;

pub use client::{TrackerConfig, TrackerDiscoverer};

use vstd::prelude::*;

verus! {

/// Trackers that are open to all.
pub const PUBLIC_TRACKERS: [&'static str; 101] = [
    "http://tracker1.itzmx.com:8080/announce",
    "http://tracker2.itzmx.com:6961/announce",
    "http://tracker3.itzmx.com:6961/announce",
    "http://tracker4.itzmx.com:2710/announce",
    "http://tracker.opentrackr.org:1337/announce",
    "http://open.acgtracker.com:1096/announce",
    "http://tracker.dler.com:6969/announce",
    "http://tracker.dler.org:6969/announce",
    "http://tracker.edkj.club:6969/announce",
    "http://tracker.files.fm:6969/announce",
    "http://tracker.gbitt.info/announce",
    "http://tracker.k.vu:6969/announce",
    "http://tracker.mywaifu.best:6969/announce",
    "http://tracker.qu.ax:6969/announce",
    "http://tracker.renfei.net:8080/announce",
    "http://wepzone.net:6969/announce",
    "http://www.all4nothin.net/announce.php",
    "http://www.peckservers.com:9000/announce",
    "http://www.wareztorrent.com/announce",
    "https://1337.abcvg.info/announce",
    "https://pybittrack.retiolus.net/announce",
    "https://t.peer-exchange.download/announce",
    "https://tr.burnabyhighstar.com/announce",
    "https://tracker.cloudit.top/announce",
    "https://tracker.gbitt.info/announce",
    "https://tracker.gcrenwp.top/announce",
    "https://tracker.ipfsscan.io/announce",
    "https://tracker.kuroy.me/announce",
    "https://tracker.lilithraws.org/announce",
    "https://tracker.loligirl.cn/announce",
    "https://tracker.pmman.tech/announce",
    "https://tracker.renfei.net/announce",
    "https://tracker.tamersunion.org/announce",
    "https://tracker.yemekyedim.com/announce",
    "https://tracker1.520.jp/announce",
    "https://trackers.mlsub.net/announce",
    "https://trackers.run/announce",
    "https://www.peckservers.com:9443/announce",
    "udp://tracker1.itzmx.com:8080/announce",
    "udp://tracker2.itzmx.com:6961/announce",
    "udp://tracker3.itzmx.com:6961/announce",
    "udp://tracker4.itzmx.com:2710/announce",
    "udp://tracker.opentrackr.org:1337/announce",
    "udp://open.demonii.com:1337/announce",
    "udp://open.demonii.si:80/announce",
    "udp://open.stealth.si:80/announce",
    "udp://tracker.torrent.eu.org:451/announce",
    "udp://tracker.dler.org:6969/announce",
    "udp://tracker.filemail.com:6969/announce",
    "udp://tracker.moeking.me:6969/announce",
    "udp://tracker.srv00.com:6969/announce",
    "udp://tracker.tiny-vps.com:6969/announce",
    "udp://exodus.desync.com:6969/announce",
    "udp://explodie.org:6969/announce",
    "udp://tracker.cyberia.is:6969/announce",
    "udp://retracker.hotplug.ru:2710/announce",
    "udp://tracker.birkenwald.de:6969/announce",
    "udp://tracker.bittor.pw:1337/announce",
    "udp://tracker.ccp.ovh:6969/announce",
    "udp://tracker.darkness.services:6969/announce",
    "udp://tracker.ddunlimited.net:6969/announce",
    "udp://tracker.deadorbit.nl:6969/announce",
    "udp://tracker.draatman.uk:6969/announce",
    "udp://tracker.dump.cl:6969/announce",
    "udp://tracker.farted.net:6969/announce",
    "udp://tracker.fnix.net:6969/announce",
    "udp://tracker.gmi.gd:6969/announce",
    "udp://tracker.jamesthebard.net:6969/announce",
    "udp://tracker.qu.ax:6969/announce",
    "udp://tracker.silksa.co.za:6969/announce",
    "udp://tracker.skyts.net:6969/announce",
    "udp://tracker.tryhackx.org:6969/announce",
    "udp://tracker1.myporn.club:9337/announce",
    "udp://tracker2.dler.org:80/announce",
    "udp://ttk2.nbaonlineservice.com:6969/announce",
    "udp://u.peer-exchange.download:6969/announce",
    "udp://wepzone.net:6969/announce",
    "udp://www.torrent.eu.org:451/announce",
    "udp://z.mercax.com:53/announce",
    "udp://tracker.openbittorrent.com:6969/announce",
    "udp://opentracker.i2p.rocks:6969/announce",
    "udp://tracker.0x7c0.com:6969/announce",
    "udp://tracker.theoks.net:6969/announce",
    "udp://p4p.arenabg.com:1337/announce",
    "udp://uploads.gamecoast.net:6969/announce",
    "udp://tracker.auctor.tv:6969/announce",
    "udp://movies.zsw.ca:6969/announce",
    "udp://opentracker.io:6969/announce",
    "udp://bt1.archive.org:6969/announce",
    "udp://bt2.archive.org:6969/announce",
    "udp://leet-tracker.moe:1337/announce",
    "udp://open.dstud.io:6969/announce",
    "udp://evan.im:6969/announce",
    "udp://isk.richardsw.club:6969/announce",
    "udp://new-line.net:6969/announce",
    "udp://oh.fuuuuuck.com:6969/announce",
    "udp://public.popcorn-tracker.org:6969/announce",
    "udp://tracker.leechers-paradise.org:6969/announce",
    "udp://tracker.internetwarriors.net:1337/announce",
    "udp://ipv4.tracker.harry.lu:80/announce",
    "udp://9.rarbg.com:2810/announce",
];

/// The addresses of the public trackers are short.
pub proof fn lemma_public_trackers_are_short(i: int)
    requires
        0 <= i < 101,
    ensures
        PUBLIC_TRACKERS@[i]@.len() <= 100,
{
    assert(PUBLIC_TRACKERS@[0]@.len() == 39) by {
        reveal_strlit("http://tracker1.itzmx.com:8080/announce");
    }
    assert(PUBLIC_TRACKERS@[1]@.len() == 39) by {
        reveal_strlit("http://tracker2.itzmx.com:6961/announce");
    }
    assert(PUBLIC_TRACKERS@[2]@.len() == 39) by {
        reveal_strlit("http://tracker3.itzmx.com:6961/announce");
    }
    assert(PUBLIC_TRACKERS@[3]@.len() == 39) by {
        reveal_strlit("http://tracker4.itzmx.com:2710/announce");
    }
    assert(PUBLIC_TRACKERS@[4]@.len() == 43) by {
        reveal_strlit("http://tracker.opentrackr.org:1337/announce");
    }
    assert(PUBLIC_TRACKERS@[5]@.len() == 40) by {
        reveal_strlit("http://open.acgtracker.com:1096/announce");
    }
    assert(PUBLIC_TRACKERS@[6]@.len() == 37) by {
        reveal_strlit("http://tracker.dler.com:6969/announce");
    }
    assert(PUBLIC_TRACKERS@[7]@.len() == 37) by {
        reveal_strlit("http://tracker.dler.org:6969/announce");
    }
    assert(PUBLIC_TRACKERS@[8]@.len() == 38) by {
        reveal_strlit("http://tracker.edkj.club:6969/announce");
    }
    assert(PUBLIC_TRACKERS@[9]@.len() == 37) by {
        reveal_strlit("http://tracker.files.fm:6969/announce");
    }
    assert(PUBLIC_TRACKERS@[10]@.len() == 34) by {
        reveal_strlit("http://tracker.gbitt.info/announce");
    }
    assert(PUBLIC_TRACKERS@[11]@.len() == 33) by {
        reveal_strlit("http://tracker.k.vu:6969/announce");
    }
    assert(PUBLIC_TRACKERS@[12]@.len() == 41) by {
        reveal_strlit("http://tracker.mywaifu.best:6969/announce");
    }
    assert(PUBLIC_TRACKERS@[13]@.len() == 34) by {
        reveal_strlit("http://tracker.qu.ax:6969/announce");
    }
    assert(PUBLIC_TRACKERS@[14]@.len() == 39) by {
        reveal_strlit("http://tracker.renfei.net:8080/announce");
    }
    assert(PUBLIC_TRACKERS@[15]@.len() == 32) by {
        reveal_strlit("http://wepzone.net:6969/announce");
    }
    assert(PUBLIC_TRACKERS@[16]@.len() == 38) by {
        reveal_strlit("http://www.all4nothin.net/announce.php");
    }
    assert(PUBLIC_TRACKERS@[17]@.len() == 40) by {
        reveal_strlit("http://www.peckservers.com:9000/announce");
    }
    assert(PUBLIC_TRACKERS@[18]@.len() == 36) by {
        reveal_strlit("http://www.wareztorrent.com/announce");
    }
    assert(PUBLIC_TRACKERS@[19]@.len() == 32) by {
        reveal_strlit("https://1337.abcvg.info/announce");
    }
    assert(PUBLIC_TRACKERS@[20]@.len() == 40) by {
        reveal_strlit("https://pybittrack.retiolus.net/announce");
    }
    assert(PUBLIC_TRACKERS@[21]@.len() == 41) by {
        reveal_strlit("https://t.peer-exchange.download/announce");
    }
    assert(PUBLIC_TRACKERS@[22]@.len() == 39) by {
        reveal_strlit("https://tr.burnabyhighstar.com/announce");
    }
    assert(PUBLIC_TRACKERS@[23]@.len() == 36) by {
        reveal_strlit("https://tracker.cloudit.top/announce");
    }
    assert(PUBLIC_TRACKERS@[24]@.len() == 35) by {
        reveal_strlit("https://tracker.gbitt.info/announce");
    }
    assert(PUBLIC_TRACKERS@[25]@.len() == 36) by {
        reveal_strlit("https://tracker.gcrenwp.top/announce");
    }
    assert(PUBLIC_TRACKERS@[26]@.len() == 36) by {
        reveal_strlit("https://tracker.ipfsscan.io/announce");
    }
    assert(PUBLIC_TRACKERS@[27]@.len() == 33) by {
        reveal_strlit("https://tracker.kuroy.me/announce");
    }
    assert(PUBLIC_TRACKERS@[28]@.len() == 39) by {
        reveal_strlit("https://tracker.lilithraws.org/announce");
    }
    assert(PUBLIC_TRACKERS@[29]@.len() == 36) by {
        reveal_strlit("https://tracker.loligirl.cn/announce");
    }
    assert(PUBLIC_TRACKERS@[30]@.len() == 35) by {
        reveal_strlit("https://tracker.pmman.tech/announce");
    }
    assert(PUBLIC_TRACKERS@[31]@.len() == 35) by {
        reveal_strlit("https://tracker.renfei.net/announce");
    }
    assert(PUBLIC_TRACKERS@[32]@.len() == 40) by {
        reveal_strlit("https://tracker.tamersunion.org/announce");
    }
    assert(PUBLIC_TRACKERS@[33]@.len() == 39) by {
        reveal_strlit("https://tracker.yemekyedim.com/announce");
    }
    assert(PUBLIC_TRACKERS@[34]@.len() == 32) by {
        reveal_strlit("https://tracker1.520.jp/announce");
    }
    assert(PUBLIC_TRACKERS@[35]@.len() == 35) by {
        reveal_strlit("https://trackers.mlsub.net/announce");
    }
    assert(PUBLIC_TRACKERS@[36]@.len() == 29) by {
        reveal_strlit("https://trackers.run/announce");
    }
    assert(PUBLIC_TRACKERS@[37]@.len() == 41) by {
        reveal_strlit("https://www.peckservers.com:9443/announce");
    }
    assert(PUBLIC_TRACKERS@[38]@.len() == 38) by {
        reveal_strlit("udp://tracker1.itzmx.com:8080/announce");
    }
    assert(PUBLIC_TRACKERS@[39]@.len() == 38) by {
        reveal_strlit("udp://tracker2.itzmx.com:6961/announce");
    }
    assert(PUBLIC_TRACKERS@[40]@.len() == 38) by {
        reveal_strlit("udp://tracker3.itzmx.com:6961/announce");
    }
    assert(PUBLIC_TRACKERS@[41]@.len() == 38) by {
        reveal_strlit("udp://tracker4.itzmx.com:2710/announce");
    }
    assert(PUBLIC_TRACKERS@[42]@.len() == 42) by {
        reveal_strlit("udp://tracker.opentrackr.org:1337/announce");
    }
    assert(PUBLIC_TRACKERS@[43]@.len() == 36) by {
        reveal_strlit("udp://open.demonii.com:1337/announce");
    }
    assert(PUBLIC_TRACKERS@[44]@.len() == 33) by {
        reveal_strlit("udp://open.demonii.si:80/announce");
    }
    assert(PUBLIC_TRACKERS@[45]@.len() == 33) by {
        reveal_strlit("udp://open.stealth.si:80/announce");
    }
    assert(PUBLIC_TRACKERS@[46]@.len() == 41) by {
        reveal_strlit("udp://tracker.torrent.eu.org:451/announce");
    }
    assert(PUBLIC_TRACKERS@[47]@.len() == 36) by {
        reveal_strlit("udp://tracker.dler.org:6969/announce");
    }
    assert(PUBLIC_TRACKERS@[48]@.len() == 40) by {
        reveal_strlit("udp://tracker.filemail.com:6969/announce");
    }
    assert(PUBLIC_TRACKERS@[49]@.len() == 38) by {
        reveal_strlit("udp://tracker.moeking.me:6969/announce");
    }
    assert(PUBLIC_TRACKERS@[50]@.len() == 37) by {
        reveal_strlit("udp://tracker.srv00.com:6969/announce");
    }
    assert(PUBLIC_TRACKERS@[51]@.len() == 40) by {
        reveal_strlit("udp://tracker.tiny-vps.com:6969/announce");
    }
    assert(PUBLIC_TRACKERS@[52]@.len() == 37) by {
        reveal_strlit("udp://exodus.desync.com:6969/announce");
    }
    assert(PUBLIC_TRACKERS@[53]@.len() == 32) by {
        reveal_strlit("udp://explodie.org:6969/announce");
    }
    assert(PUBLIC_TRACKERS@[54]@.len() == 38) by {
        reveal_strlit("udp://tracker.cyberia.is:6969/announce");
    }
    assert(PUBLIC_TRACKERS@[55]@.len() == 40) by {
        reveal_strlit("udp://retracker.hotplug.ru:2710/announce");
    }
    assert(PUBLIC_TRACKERS@[56]@.len() == 41) by {
        reveal_strlit("udp://tracker.birkenwald.de:6969/announce");
    }
    assert(PUBLIC_TRACKERS@[57]@.len() == 37) by {
        reveal_strlit("udp://tracker.bittor.pw:1337/announce");
    }
    assert(PUBLIC_TRACKERS@[58]@.len() == 35) by {
        reveal_strlit("udp://tracker.ccp.ovh:6969/announce");
    }
    assert(PUBLIC_TRACKERS@[59]@.len() == 45) by {
        reveal_strlit("udp://tracker.darkness.services:6969/announce");
    }
    assert(PUBLIC_TRACKERS@[60]@.len() == 43) by {
        reveal_strlit("udp://tracker.ddunlimited.net:6969/announce");
    }
    assert(PUBLIC_TRACKERS@[61]@.len() == 40) by {
        reveal_strlit("udp://tracker.deadorbit.nl:6969/announce");
    }
    assert(PUBLIC_TRACKERS@[62]@.len() == 39) by {
        reveal_strlit("udp://tracker.draatman.uk:6969/announce");
    }
    assert(PUBLIC_TRACKERS@[63]@.len() == 35) by {
        reveal_strlit("udp://tracker.dump.cl:6969/announce");
    }
    assert(PUBLIC_TRACKERS@[64]@.len() == 38) by {
        reveal_strlit("udp://tracker.farted.net:6969/announce");
    }
    assert(PUBLIC_TRACKERS@[65]@.len() == 36) by {
        reveal_strlit("udp://tracker.fnix.net:6969/announce");
    }
    assert(PUBLIC_TRACKERS@[66]@.len() == 34) by {
        reveal_strlit("udp://tracker.gmi.gd:6969/announce");
    }
    assert(PUBLIC_TRACKERS@[67]@.len() == 44) by {
        reveal_strlit("udp://tracker.jamesthebard.net:6969/announce");
    }
    assert(PUBLIC_TRACKERS@[68]@.len() == 33) by {
        reveal_strlit("udp://tracker.qu.ax:6969/announce");
    }
    assert(PUBLIC_TRACKERS@[69]@.len() == 40) by {
        reveal_strlit("udp://tracker.silksa.co.za:6969/announce");
    }
    assert(PUBLIC_TRACKERS@[70]@.len() == 37) by {
        reveal_strlit("udp://tracker.skyts.net:6969/announce");
    }
    assert(PUBLIC_TRACKERS@[71]@.len() == 40) by {
        reveal_strlit("udp://tracker.tryhackx.org:6969/announce");
    }
    assert(PUBLIC_TRACKERS@[72]@.len() == 40) by {
        reveal_strlit("udp://tracker1.myporn.club:9337/announce");
    }
    assert(PUBLIC_TRACKERS@[73]@.len() == 35) by {
        reveal_strlit("udp://tracker2.dler.org:80/announce");
    }
    assert(PUBLIC_TRACKERS@[74]@.len() == 45) by {
        reveal_strlit("udp://ttk2.nbaonlineservice.com:6969/announce");
    }
    assert(PUBLIC_TRACKERS@[75]@.len() == 44) by {
        reveal_strlit("udp://u.peer-exchange.download:6969/announce");
    }
    assert(PUBLIC_TRACKERS@[76]@.len() == 31) by {
        reveal_strlit("udp://wepzone.net:6969/announce");
    }
    assert(PUBLIC_TRACKERS@[77]@.len() == 37) by {
        reveal_strlit("udp://www.torrent.eu.org:451/announce");
    }
    assert(PUBLIC_TRACKERS@[78]@.len() == 30) by {
        reveal_strlit("udp://z.mercax.com:53/announce");
    }
    assert(PUBLIC_TRACKERS@[79]@.len() == 46) by {
        reveal_strlit("udp://tracker.openbittorrent.com:6969/announce");
    }
    assert(PUBLIC_TRACKERS@[80]@.len() == 41) by {
        reveal_strlit("udp://opentracker.i2p.rocks:6969/announce");
    }
    assert(PUBLIC_TRACKERS@[81]@.len() == 37) by {
        reveal_strlit("udp://tracker.0x7c0.com:6969/announce");
    }
    assert(PUBLIC_TRACKERS@[82]@.len() == 38) by {
        reveal_strlit("udp://tracker.theoks.net:6969/announce");
    }
    assert(PUBLIC_TRACKERS@[83]@.len() == 35) by {
        reveal_strlit("udp://p4p.arenabg.com:1337/announce");
    }
    assert(PUBLIC_TRACKERS@[84]@.len() == 41) by {
        reveal_strlit("udp://uploads.gamecoast.net:6969/announce");
    }
    assert(PUBLIC_TRACKERS@[85]@.len() == 37) by {
        reveal_strlit("udp://tracker.auctor.tv:6969/announce");
    }
    assert(PUBLIC_TRACKERS@[86]@.len() == 33) by {
        reveal_strlit("udp://movies.zsw.ca:6969/announce");
    }
    assert(PUBLIC_TRACKERS@[87]@.len() == 34) by {
        reveal_strlit("udp://opentracker.io:6969/announce");
    }
    assert(PUBLIC_TRACKERS@[88]@.len() == 35) by {
        reveal_strlit("udp://bt1.archive.org:6969/announce");
    }
    assert(PUBLIC_TRACKERS@[89]@.len() == 35) by {
        reveal_strlit("udp://bt2.archive.org:6969/announce");
    }
    assert(PUBLIC_TRACKERS@[90]@.len() == 36) by {
        reveal_strlit("udp://leet-tracker.moe:1337/announce");
    }
    assert(PUBLIC_TRACKERS@[91]@.len() == 33) by {
        reveal_strlit("udp://open.dstud.io:6969/announce");
    }
    assert(PUBLIC_TRACKERS@[92]@.len() == 27) by {
        reveal_strlit("udp://evan.im:6969/announce");
    }
    assert(PUBLIC_TRACKERS@[93]@.len() == 38) by {
        reveal_strlit("udp://isk.richardsw.club:6969/announce");
    }
    assert(PUBLIC_TRACKERS@[94]@.len() == 32) by {
        reveal_strlit("udp://new-line.net:6969/announce");
    }
    assert(PUBLIC_TRACKERS@[95]@.len() == 35) by {
        reveal_strlit("udp://oh.fuuuuuck.com:6969/announce");
    }
    assert(PUBLIC_TRACKERS@[96]@.len() == 46) by {
        reveal_strlit("udp://public.popcorn-tracker.org:6969/announce");
    }
    assert(PUBLIC_TRACKERS@[97]@.len() == 49) by {
        reveal_strlit("udp://tracker.leechers-paradise.org:6969/announce");
    }
    assert(PUBLIC_TRACKERS@[98]@.len() == 48) by {
        reveal_strlit("udp://tracker.internetwarriors.net:1337/announce");
    }
    assert(PUBLIC_TRACKERS@[99]@.len() == 39) by {
        reveal_strlit("udp://ipv4.tracker.harry.lu:80/announce");
    }
    assert(PUBLIC_TRACKERS@[100]@.len() == 31) by {
        reveal_strlit("udp://9.rarbg.com:2810/announce");
    }
}

} // verus!
